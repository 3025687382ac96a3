//! Checks every transaction of a parsed Beancount file against the
//! balancing rule.
use vstd::prelude::*;
use vstd::string::StringExecFns;
use crate::ast::BeancountNode;
use crate::beancount_parser::BeancountParseError;
use crate::ledger::{Transaction, build_postings, build_overflows};
use crate::text::{trim_chars, trim_string};

verus! {

/// The characters of an optional text, or nothing.
pub open spec fn chars_or_empty(o: Option<String>) -> Seq<char> {
    match o {
        Some(s) => s@,
        None => seq![],
    }
}

/// How a transaction is named in a validation error: "Transaction on",
/// the date, payee and narration, separated by spaces and trimmed.
pub open spec fn transaction_context(date: Seq<char>, payee: Option<String>, narration: Option<String>) -> Seq<char> {
    trim_chars("Transaction on "@ + date + " "@ + chars_or_empty(payee) + " "@ + chars_or_empty(narration))
}

/// The message of a validation error.
pub open spec fn validation_message(context: Seq<char>, reason: Seq<char>) -> Seq<char> {
    "Validation error for "@ + context + ": "@ + reason
}

/// The messages of the transactions among `nodes` that fail to build, in
/// order.
pub open spec fn validation_messages(nodes: Seq<BeancountNode>) -> Seq<Seq<char>>
    decreases nodes.len(),
{
    if nodes.len() == 0 {
        seq![]
    } else {
        let rest = validation_messages(nodes.drop_last());
        match nodes.last() {
            BeancountNode::Transaction { date, flag, payee, narration, postings } => match build_postings(postings@) {
                Err(m) => rest.push(validation_message(transaction_context(date@, payee, narration), m)),
                Ok(_) => rest,
            },
        }
    }
}

/// Whether building some transaction among `nodes` would overflow a sum.
pub open spec fn any_overflow(nodes: Seq<BeancountNode>) -> bool {
    exists|k: int|
        0 <= k < nodes.len() && (#[trigger] nodes[k] matches BeancountNode::Transaction {
            postings,
            ..
        } && build_overflows(postings@))
}

fn chars_or_empty_str(o: &Option<String>) -> (r: &str)
    ensures
        r@ == chars_or_empty(*o),
{
    match o {
        Some(s) => s.as_str(),
        None => {
            proof {
                reveal_strlit("");
            }
            ""
        },
    }
}

/// One error (with the empty span at 0) for each transaction that does not
/// build, naming it by date, payee and narration and giving the reason.
/// A sum that overflows is left out by `requires` (`rust_decimal` panics
/// there); `validate_beancount_checked` tests for it.
pub fn validate_beancount(nodes: &[BeancountNode]) -> (r: Vec<BeancountParseError>)
    requires
        !any_overflow(nodes@),
    ensures
        r@.len() == validation_messages(nodes@).len(),
        forall|k: int|
            0 <= k < r@.len() ==> {
                &&& (#[trigger] r@[k]).message@ == validation_messages(nodes@)[k]
                &&& r@[k].span.start == 0
                &&& r@[k].span.end == 0
            },
{
    let mut errors: Vec<BeancountParseError> = Vec::new();
    let mut i: usize = 0;
    while i < nodes.len()
        invariant
            i <= nodes@.len(),
            !any_overflow(nodes@),
            errors@.len() == validation_messages(nodes@.take(i as int)).len(),
            forall|k: int|
                0 <= k < errors@.len() ==> {
                    &&& (#[trigger] errors@[k]).message@ == validation_messages(nodes@.take(i as int))[k]
                    &&& errors@[k].span.start == 0
                    &&& errors@[k].span.end == 0
                },
        decreases nodes@.len() - i,
    {
        assert(nodes@.take(i + 1).drop_last() =~= nodes@.take(i as int));
        assert(nodes@.take(i + 1).last() == nodes@[i as int]);
        let ghost prev = errors@;
        match &nodes[i] {
            BeancountNode::Transaction { date, flag, payee, narration, postings } => {
                assert(!build_overflows(postings@));
                let built = Transaction::try_from_ast(
                    date.as_str(),
                    flag.as_str(),
                    payee,
                    narration,
                    postings.as_slice(),
                );
                if let Err(err) = built {
                    let mut context = String::from_str("Transaction on ");
                    context.append(date.as_str());
                    context.append(" ");
                    context.append(chars_or_empty_str(payee));
                    context.append(" ");
                    context.append(chars_or_empty_str(narration));
                    let context = trim_string(context.as_str());
                    let mut message = String::from_str("Validation error for ");
                    message.append(context.as_str());
                    message.append(": ");
                    message.append(err.message.as_str());
                    errors.push(BeancountParseError { span: 0..0, message });
                    assert(errors@[errors@.len() - 1].message@ == validation_messages(nodes@.take(i + 1)).last());
                }
            },
        }
        proof {
            assert forall|k: int| 0 <= k < errors@.len() implies {
                &&& (#[trigger] errors@[k]).message@ == validation_messages(nodes@.take(i + 1))[k]
                &&& errors@[k].span.start == 0
                &&& errors@[k].span.end == 0
            } by {
                if k < prev.len() {
                    assert(errors@[k] == prev[k]);
                }
            }
        }
        i = i + 1;
    }
    assert(nodes@.take(i as int) =~= nodes@);
    errors
}

/// Validates as `validate_beancount` does, or returns `None` where building
/// some transaction would overflow a sum.
pub fn validate_beancount_checked(nodes: &[BeancountNode]) -> (r: Option<Vec<BeancountParseError>>)
    ensures
        r is None <==> any_overflow(nodes@),
        r matches Some(v) ==> {
            &&& v@.len() == validation_messages(nodes@).len()
            &&& forall|k: int|
                0 <= k < v@.len() ==> {
                    &&& (#[trigger] v@[k]).message@ == validation_messages(nodes@)[k]
                    &&& v@[k].span.start == 0
                    &&& v@[k].span.end == 0
                }
        },
{
    let mut i: usize = 0;
    while i < nodes.len()
        invariant
            i <= nodes@.len(),
            forall|k: int| 0 <= k < i ==> !(#[trigger] nodes@[k] matches BeancountNode::Transaction {
                postings,
                ..
            } && build_overflows(postings@)),
        decreases nodes@.len() - i,
    {
        match &nodes[i] {
            BeancountNode::Transaction { date, flag, payee, narration, postings } => {
                if Transaction::try_from_ast_checked(date.as_str(), flag.as_str(), payee, narration, postings.as_slice()).is_none() {
                    return None;
                }
            },
        }
        i = i + 1;
    }
    Some(validate_beancount(nodes))
}


/// Whether a directive fails to build: its postings do not parse or do not
/// balance.
pub open spec fn fails_to_build(n: BeancountNode) -> bool {
    match n {
        BeancountNode::Transaction { postings, .. } => build_postings(postings@) is Err,
    }
}

/// The validation message of a directive that fails to build: its context
/// and the reason the transaction does not build.
pub open spec fn node_message(n: BeancountNode) -> Seq<char> {
    match n {
        BeancountNode::Transaction { date, payee, narration, postings, .. } => match build_postings(postings@) {
            Err(m) => validation_message(transaction_context(date@, payee, narration), m),
            Ok(_) => seq![],
        },
    }
}

/// Validation reports every directive that fails to build, and nothing
/// else: the messages are, in order, one for each such directive, whatever
/// its flag, naming it by date, payee and narration and giving the reason
/// it does not build.
pub proof fn law_validation_reports_every_failure(nodes: Seq<BeancountNode>)
    ensures
        validation_messages(nodes).len() == nodes.filter(|n: BeancountNode| fails_to_build(n)).len(),
        forall|k: int|
            0 <= k < validation_messages(nodes).len() ==> #[trigger] validation_messages(nodes)[k]
                == node_message(nodes.filter(|n: BeancountNode| fails_to_build(n))[k]),
    decreases nodes.len(),
{
    let f = |n: BeancountNode| fails_to_build(n);
    reveal_with_fuel(Seq::filter, 1);
    if nodes.len() > 0 {
        law_validation_reports_every_failure(nodes.drop_last());
        let rest = validation_messages(nodes.drop_last());
        let fr = nodes.drop_last().filter(f);
        assert(nodes.filter(f) == (if f(nodes.last()) { fr.push(nodes.last()) } else { fr }));
        let m = validation_messages(nodes);
        assert forall|k: int| 0 <= k < m.len() implies #[trigger] m[k] == node_message(nodes.filter(f)[k]) by {
            if k < rest.len() {
                assert(m[k] == rest[k]);
                assert(nodes.filter(f)[k] == fr[k]);
            }
        }
    }
}

} // verus!
