//! Transactions with decimal amounts, and the balancing rule: per currency
//! the amounts of a transaction sum to zero, and one posting may leave its
//! amount out to have it inferred.
use vstd::prelude::*;
use vstd::string::StringExecFns;
use crate::ast;
use crate::decimal::{
    Decimal, decimal_parse, decimal_checked_add, decimal_display, parse_decimal, checked_add,
    decimal_to_string,
};

verus! {

/// An amount: a number in a currency.
#[derive(Debug, Clone, PartialEq)]
pub struct Amount {
    pub number: Decimal,
    pub currency: String,
}

/// A posting: an optional flag, the account, and the amount if known.
#[derive(Debug, Clone, PartialEq)]
pub struct Posting {
    pub flag: Option<String>,
    pub account: String,
    pub amount: Option<Amount>,
}

/// A transaction whose postings balance.
#[derive(Debug, Clone, PartialEq)]
pub struct Transaction {
    pub date: String,
    pub flag: String,
    pub payee: Option<String>,
    pub narration: Option<String>,
    pub postings: Vec<Posting>,
}

/// Why a transaction could not be built or does not balance.
#[derive(Debug, Clone, PartialEq)]
pub struct BalancingError {
    pub message: String,
}

/// The plain value of an amount.
pub struct AmountModel {
    pub number: Decimal,
    pub currency: Seq<char>,
}

/// The plain value of a posting.
pub struct PostingModel {
    pub flag: Option<Seq<char>>,
    pub account: Seq<char>,
    pub amount: Option<AmountModel>,
}

/// The characters of an optional string.
pub open spec fn opt_chars(o: Option<String>) -> Option<Seq<char>> {
    match o {
        Some(s) => Some(s@),
        None => None,
    }
}

/// The plain value of a posting.
pub open spec fn posting_model(p: Posting) -> PostingModel {
    PostingModel {
        flag: opt_chars(p.flag),
        account: p.account@,
        amount: match p.amount {
            Some(a) => Some(AmountModel { number: a.number, currency: a.currency@ }),
            None => None,
        },
    }
}

/// The plain values of postings.
pub open spec fn postings_model(ps: Seq<Posting>) -> Seq<PostingModel> {
    ps.map_values(|p: Posting| posting_model(p))
}

/// Every known amount is a valid decimal.
pub open spec fn amounts_wf(ms: Seq<PostingModel>) -> bool {
    forall|k: int| 0 <= k < ms.len() ==> (#[trigger] ms[k].amount matches Some(a) ==> a.number.wf())
}

/// The message for a number that does not parse.
pub open spec fn parse_error_message(number: Seq<char>, err: Seq<char>) -> Seq<char> {
    "Invalid decimal number '"@ + number + "': "@ + err
}

/// A written posting with its number parsed, or the parse error message.
pub open spec fn convert_posting(p: ast::Posting) -> Result<PostingModel, Seq<char>> {
    match p.amount {
        None => Ok(PostingModel { flag: opt_chars(p.flag), account: p.account@, amount: None }),
        Some(a) => match decimal_parse(a.number@) {
            Ok(d) => Ok(
                PostingModel {
                    flag: opt_chars(p.flag),
                    account: p.account@,
                    amount: Some(AmountModel { number: d, currency: a.currency@ }),
                },
            ),
            Err(e) => Err(parse_error_message(a.number@, e)),
        },
    }
}

/// The written postings with their numbers parsed, or the message of the
/// first that does not parse.
pub open spec fn convert_postings(ps: Seq<ast::Posting>) -> Result<Seq<PostingModel>, Seq<char>>
    decreases ps.len(),
{
    if ps.len() == 0 {
        Ok(seq![])
    } else {
        match convert_postings(ps.drop_last()) {
            Err(e) => Err(e),
            Ok(ms) => match convert_posting(ps.last()) {
                Err(e) => Err(e),
                Ok(m) => Ok(ms.push(m)),
            },
        }
    }
}

/// Why summing the postings stopped.
#[derive(Debug, Clone, Copy, PartialEq, Eq, Structural)]
pub enum SumFailure {
    /// An addition overflowed.
    Overflow,
    /// A second posting without amount.
    TwoMissing,
}

/// The running sums per currency, in the order the currencies first appear,
/// and the index of the posting without amount, if any.
pub struct Sums {
    pub entries: Seq<(Seq<char>, Decimal)>,
    pub missing: Option<int>,
}

/// The index of the first entry of currency `c` at or after `k`, or -1.
pub open spec fn index_from(entries: Seq<(Seq<char>, Decimal)>, c: Seq<char>, k: int) -> int
    decreases entries.len() - k,
{
    if k < 0 || k >= entries.len() {
        -1
    } else if entries[k].0 == c {
        k
    } else {
        index_from(entries, c, k + 1)
    }
}

/// The sums with `x` added to currency `c` (starting from zero for a new
/// currency), or `None` if the addition overflows.
pub open spec fn add_to_sums(entries: Seq<(Seq<char>, Decimal)>, c: Seq<char>, x: Decimal) -> Option<
    Seq<(Seq<char>, Decimal)>,
> {
    let k = index_from(entries, c, 0);
    if k >= 0 {
        match decimal_checked_add(entries[k].1, x) {
            Some(v) => Some(entries.update(k, (c, v))),
            None => None,
        }
    } else {
        match decimal_checked_add(Decimal::spec_zero(), x) {
            Some(v) => Some(entries.push((c, v))),
            None => None,
        }
    }
}

/// The sums over the first `n` postings, stopping at the first overflow or
/// at the second posting without amount.
pub open spec fn scan_sums(ps: Seq<PostingModel>, n: int) -> Result<Sums, SumFailure>
    decreases n,
{
    if n <= 0 {
        Ok(Sums { entries: seq![], missing: None })
    } else {
        match scan_sums(ps, n - 1) {
            Err(f) => Err(f),
            Ok(st) => match ps[n - 1].amount {
                Some(a) => match add_to_sums(st.entries, a.currency, a.number) {
                    Some(e) => Ok(Sums { entries: e, missing: st.missing }),
                    None => Err(SumFailure::Overflow),
                },
                None => if st.missing is Some {
                    Err(SumFailure::TwoMissing)
                } else {
                    Ok(Sums { entries: st.entries, missing: Some(n - 1) })
                },
            },
        }
    }
}

/// Whether summing the postings overflows (where `rust_decimal` panics).
pub open spec fn sums_overflow(ps: Seq<PostingModel>) -> bool {
    scan_sums(ps, ps.len() as int) == Err::<Sums, SumFailure>(SumFailure::Overflow)
}

/// The number of non-zero sums.
pub open spec fn nonzero_count(entries: Seq<(Seq<char>, Decimal)>) -> nat
    decreases entries.len(),
{
    if entries.len() == 0 {
        0
    } else {
        nonzero_count(entries.drop_last()) + if entries.last().1.spec_is_zero() { 0nat } else { 1nat }
    }
}

/// The index of the first non-zero sum, or -1.
pub open spec fn first_nonzero(entries: Seq<(Seq<char>, Decimal)>) -> int
    decreases entries.len(),
{
    if entries.len() == 0 {
        -1
    } else if first_nonzero(entries.drop_last()) >= 0 {
        first_nonzero(entries.drop_last())
    } else if entries.last().1.spec_is_zero() {
        -1
    } else {
        entries.len() - 1
    }
}

/// The posting with its amount set.
pub open spec fn with_amount(p: PostingModel, number: Decimal, currency: Seq<char>) -> PostingModel {
    PostingModel { amount: Some(AmountModel { number, currency }), ..p }
}

/// The message for a transaction that does not balance.
pub open spec fn unbalanced_message(currency: Seq<char>, sum: Decimal) -> Seq<char> {
    "Transaction does not balance: sum of "@ + currency + " is "@ + decimal_display(sum)
}

/// The balancing rule on parsed postings: with two postings lacking an
/// amount it fails; with one, the amount is inferred as the negation of the
/// only non-zero currency sum, or as zero in the first currency when every
/// sum is zero, and it fails when several sums are non-zero or there is no
/// amount at all; with none, the first non-zero currency sum is reported.
pub open spec fn balance(ps: Seq<PostingModel>) -> Result<Seq<PostingModel>, Seq<char>> {
    match scan_sums(ps, ps.len() as int) {
        Err(SumFailure::TwoMissing) => Err(
            "Transaction has more than one posting with missing amount"@,
        ),
        Err(SumFailure::Overflow) => Err(seq![]),
        Ok(st) => match st.missing {
            Some(idx) => {
                if nonzero_count(st.entries) > 1 {
                    Err("Cannot infer missing amount: multiple currencies have non-zero sums"@)
                } else if nonzero_count(st.entries) == 0 {
                    if st.entries.len() == 0 {
                        Err(
                            "Cannot infer missing amount: no other amounts in transaction to balance against"@,
                        )
                    } else {
                        Ok(ps.update(idx, with_amount(ps[idx], Decimal::spec_zero(), st.entries[0].0)))
                    }
                } else {
                    let k = first_nonzero(st.entries);
                    Ok(ps.update(idx, with_amount(ps[idx], st.entries[k].1.spec_neg(), st.entries[k].0)))
                }
            },
            None => {
                let k = first_nonzero(st.entries);
                if k >= 0 {
                    Err(unbalanced_message(st.entries[k].0, st.entries[k].1))
                } else {
                    Ok(ps)
                }
            },
        },
    }
}

/// What `Transaction::try_from_ast` yields for the written postings: the
/// parse error of the first bad number, or the balancing rule's outcome.
pub open spec fn build_postings(ps: Seq<ast::Posting>) -> Result<Seq<PostingModel>, Seq<char>> {
    match convert_postings(ps) {
        Err(e) => Err(e),
        Ok(ms) => balance(ms),
    }
}

/// Whether building from the written postings would overflow a sum.
pub open spec fn build_overflows(ps: Seq<ast::Posting>) -> bool {
    convert_postings(ps) matches Ok(ms) && sums_overflow(ms)
}


/// The plain values of sum entries.
pub open spec fn entries_model(e: Seq<(String, Decimal)>) -> Seq<(Seq<char>, Decimal)> {
    e.map_values(|x: (String, Decimal)| (x.0@, x.1))
}

/// An index as an integer.
pub open spec fn opt_int(o: Option<usize>) -> Option<int> {
    match o {
        Some(k) => Some(k as int),
        None => None,
    }
}

pub(crate) fn clone_opt_string(o: &Option<String>) -> (r: Option<String>)
    ensures
        r == *o,
{
    match o {
        Some(s) => Some(s.clone()),
        None => None,
    }
}

fn convert_one(p: &ast::Posting) -> (r: Result<Posting, BalancingError>)
    ensures
        match r {
            Ok(q) => convert_posting(*p) == Ok::<PostingModel, Seq<char>>(posting_model(q)) && (
            q.amount matches Some(a) ==> a.number.wf()),
            Err(e) => convert_posting(*p) == Err::<PostingModel, Seq<char>>(e.message@),
        },
{
    let amount = match &p.amount {
        Some(a) => match parse_decimal(a.number.as_str()) {
            Ok(number) => Some(Amount { number, currency: a.currency.clone() }),
            Err(e) => {
                let mut message = String::from_str("Invalid decimal number '");
                message.append(a.number.as_str());
                message.append("': ");
                message.append(e.as_str());
                return Err(BalancingError { message });
            },
        },
        None => None,
    };
    Ok(Posting { flag: clone_opt_string(&p.flag), account: p.account.clone(), amount })
}

proof fn lemma_convert_err_extends(ps: Seq<ast::Posting>, k: int, e: Seq<char>)
    requires
        0 <= k <= ps.len(),
        convert_postings(ps.take(k)) == Err::<Seq<PostingModel>, Seq<char>>(e),
    ensures
        convert_postings(ps) == Err::<Seq<PostingModel>, Seq<char>>(e),
    decreases ps.len() - k,
{
    if k < ps.len() {
        assert(ps.take(k + 1).drop_last() =~= ps.take(k));
        lemma_convert_err_extends(ps, k + 1, e);
    } else {
        assert(ps.take(k) =~= ps);
    }
}

fn convert_all(ps: &[ast::Posting]) -> (r: Result<Vec<Posting>, BalancingError>)
    ensures
        match r {
            Ok(v) => convert_postings(ps@) == Ok::<Seq<PostingModel>, Seq<char>>(postings_model(v@))
                && amounts_wf(postings_model(v@)),
            Err(e) => convert_postings(ps@) == Err::<Seq<PostingModel>, Seq<char>>(e.message@),
        },
{
    let mut out: Vec<Posting> = Vec::new();
    let mut i: usize = 0;
    assert(ps@.take(0) =~= Seq::<ast::Posting>::empty());
    assert(postings_model(out@) =~= Seq::<PostingModel>::empty());
    while i < ps.len()
        invariant
            i <= ps@.len(),
            convert_postings(ps@.take(i as int)) == Ok::<Seq<PostingModel>, Seq<char>>(postings_model(out@)),
            amounts_wf(postings_model(out@)),
        decreases ps@.len() - i,
    {
        let ghost prev = out@;
        assert(ps@.take(i + 1).drop_last() =~= ps@.take(i as int));
        assert(ps@.take(i + 1).last() == ps@[i as int]);
        match convert_one(&ps[i]) {
            Ok(q) => {
                out.push(q);
                assert(postings_model(out@) =~= postings_model(prev).push(posting_model(q)));
            },
            Err(e) => {
                proof { lemma_convert_err_extends(ps@, i + 1, e.message@); }
                return Err(e);
            },
        }
        i = i + 1;
    }
    assert(ps@.take(i as int) =~= ps@);
    Ok(out)
}

pub(crate) fn find_currency(entries: &Vec<(String, Decimal)>, c: &String) -> (r: Option<usize>)
    ensures
        match r {
            Some(k) => index_from(entries_model(entries@), c@, 0) == k && k < entries@.len(),
            None => index_from(entries_model(entries@), c@, 0) == -1,
        },
{
    let ghost em = entries_model(entries@);
    let mut k: usize = 0;
    while k < entries.len()
        invariant
            em == entries_model(entries@),
            k <= entries@.len(),
            index_from(em, c@, 0) == index_from(em, c@, k as int),
        decreases entries@.len() - k,
    {
        if entries[k].0 == *c {
            return Some(k);
        }
        k = k + 1;
    }
    None
}

pub(crate) proof fn lemma_index_from(e: Seq<(Seq<char>, Decimal)>, c: Seq<char>, j: int)
    requires
        0 <= j,
    ensures
        index_from(e, c, j) >= 0 ==> j <= index_from(e, c, j) < e.len() && e[index_from(e, c, j)].0 == c,
        index_from(e, c, j) < 0 ==> forall|k: int| j <= k < e.len() ==> (#[trigger] e[k]).0 != c,
    decreases e.len() - j,
{
    if j < e.len() && e[j].0 != c {
        lemma_index_from(e, c, j + 1);
    }
}

proof fn lemma_scan_err_persists(ps: Seq<PostingModel>, n: int, m: int, f: SumFailure)
    requires
        0 <= n <= m,
        scan_sums(ps, n) == Err::<Sums, SumFailure>(f),
    ensures
        scan_sums(ps, m) == Err::<Sums, SumFailure>(f),
    decreases m - n,
{
    if n < m {
        lemma_scan_err_persists(ps, n + 1, m, f);
    }
}

/// The sums are valid decimals.
pub open spec fn entries_wf(e: Seq<(Seq<char>, Decimal)>) -> bool {
    forall|k: int| 0 <= k < e.len() ==> (#[trigger] e[k]).1.wf()
}

fn exec_scan_sums(ps: &Vec<Posting>) -> (r: Result<(Vec<(String, Decimal)>, Option<usize>), SumFailure>)
    requires
        amounts_wf(postings_model(ps@)),
    ensures
        match r {
            Ok((e, m)) => scan_sums(postings_model(ps@), ps@.len() as int) == Ok::<Sums, SumFailure>(
                Sums { entries: entries_model(e@), missing: opt_int(m) },
            ) && entries_wf(entries_model(e@)) && (m matches Some(j) ==> j < ps@.len()),
            Err(f) => scan_sums(postings_model(ps@), ps@.len() as int) == Err::<Sums, SumFailure>(f),
        },
{
    let ghost pm = postings_model(ps@);
    let mut entries: Vec<(String, Decimal)> = Vec::new();
    let mut missing: Option<usize> = None;
    let mut i: usize = 0;
    assert(entries_model(entries@) =~= Seq::<(Seq<char>, Decimal)>::empty());
    while i < ps.len()
        invariant
            pm == postings_model(ps@),
            amounts_wf(pm),
            i <= ps@.len(),
            scan_sums(pm, i as int) == Ok::<Sums, SumFailure>(
                Sums { entries: entries_model(entries@), missing: opt_int(missing) },
            ),
            entries_wf(entries_model(entries@)),
            missing matches Some(j) ==> j < i,
        decreases ps@.len() - i,
    {
        assert(pm[i as int] == posting_model(ps@[i as int]));
        match &ps[i].amount {
            Some(a) => {
                assert(pm[i as int].amount matches Some(am) && am.number.wf());
                let ghost em = entries_model(entries@);
                match find_currency(&entries, &a.currency) {
                    Some(k) => {
                        proof { lemma_index_from(em, a.currency@, 0); }
                        assert(em[k as int].1.wf());
                        match checked_add(entries[k].1, a.number) {
                            Some(v) => {
                                let key = entries[k].0.clone();
                                entries.set(k, (key, v));
                                assert(entries_model(entries@) =~= em.update(k as int, (a.currency@, v)));
                            },
                            None => {
                                proof { lemma_scan_err_persists(pm, i + 1, ps@.len() as int, SumFailure::Overflow); }
                                return Err(SumFailure::Overflow);
                            },
                        }
                    },
                    None => {
                        match checked_add(Decimal::zero(), a.number) {
                            Some(v) => {
                                entries.push((a.currency.clone(), v));
                                assert(entries_model(entries@) =~= em.push((a.currency@, v)));
                            },
                            None => {
                                proof { lemma_scan_err_persists(pm, i + 1, ps@.len() as int, SumFailure::Overflow); }
                                return Err(SumFailure::Overflow);
                            },
                        }
                    },
                }
            },
            None => {
                if missing.is_some() {
                    proof { lemma_scan_err_persists(pm, i + 1, ps@.len() as int, SumFailure::TwoMissing); }
                    return Err(SumFailure::TwoMissing);
                }
                missing = Some(i);
            },
        }
        i = i + 1;
    }
    Ok((entries, missing))
}


fn count_nonzero(entries: &Vec<(String, Decimal)>) -> (r: (usize, Option<usize>))
    ensures
        r.0 == nonzero_count(entries_model(entries@)),
        match r.1 {
            Some(k) => first_nonzero(entries_model(entries@)) == k && k < entries@.len(),
            None => first_nonzero(entries_model(entries@)) == -1,
        },
{
    let ghost em = entries_model(entries@);
    let mut count: usize = 0;
    let mut first: Option<usize> = None;
    let mut i: usize = 0;
    assert(em.take(0) =~= Seq::<(Seq<char>, Decimal)>::empty());
    while i < entries.len()
        invariant
            em == entries_model(entries@),
            i <= entries@.len(),
            count == nonzero_count(em.take(i as int)),
            count <= i,
            match first {
                Some(k) => first_nonzero(em.take(i as int)) == k && k < i,
                None => first_nonzero(em.take(i as int)) == -1,
            },
        decreases entries@.len() - i,
    {
        assert(em.take(i + 1).drop_last() =~= em.take(i as int));
        assert(em.take(i + 1).last() == em[i as int]);
        if !entries[i].1.is_zero() {
            count = count + 1;
            if first.is_none() {
                first = Some(i);
            }
        }
        i = i + 1;
    }
    assert(em.take(i as int) =~= em);
    (count, first)
}

/// Whether `r` is what `Transaction::try_from_ast` owes for these arguments:
/// on success the postings are the outcome of `build_postings` and the other
/// fields are the arguments; on failure the message is that of
/// `build_postings`.
pub open spec fn built_from(
    date: Seq<char>,
    flag: Seq<char>,
    payee: Option<String>,
    narration: Option<String>,
    ps: Seq<ast::Posting>,
    r: Result<Transaction, BalancingError>,
) -> bool {
    match r {
        Ok(t) => build_postings(ps) == Ok::<Seq<PostingModel>, Seq<char>>(postings_model(t.postings@))
            && t.date@ == date && t.flag@ == flag && t.payee == payee && t.narration == narration,
        Err(e) => build_postings(ps) == Err::<Seq<PostingModel>, Seq<char>>(e.message@),
    }
}

fn set_amount(postings: &mut Vec<Posting>, idx: usize, number: Decimal, currency: String)
    requires
        idx < old(postings)@.len(),
    ensures
        postings_model(final(postings)@) == postings_model(old(postings)@).update(
            idx as int,
            with_amount(postings_model(old(postings)@)[idx as int], number, currency@),
        ),
        final(postings)@.len() == old(postings)@.len(),
        forall|k: int| 0 <= k < final(postings)@.len() && k != idx ==> #[trigger] final(postings)@[k] == old(postings)@[k],
        final(postings)@[idx as int].amount matches Some(a) && a.number == number,
{
    let ghost before = postings@;
    let np = Posting {
        flag: clone_opt_string(&postings[idx].flag),
        account: postings[idx].account.clone(),
        amount: Some(Amount { number, currency }),
    };
    postings.set(idx, np);
    assert(postings_model(postings@) =~= postings_model(before).update(
        idx as int,
        with_amount(postings_model(before)[idx as int], number, currency@),
    ));
}

impl Transaction {
    /// Builds a transaction from written postings: parses every number (the
    /// first that does not parse is the error), then applies the balancing
    /// rule (see `balance`). A sum that overflows is left out by `requires`
    /// (`rust_decimal` panics there); `try_from_ast_checked` tests for it.
    pub fn try_from_ast(
        date: &str,
        flag: &str,
        payee: &Option<String>,
        narration: &Option<String>,
        ast_postings: &[ast::Posting],
    ) -> (r: Result<Self, BalancingError>)
        requires
            !build_overflows(ast_postings@),
        ensures
            built_from(date@, flag@, *payee, *narration, ast_postings@, r),
    {
        let mut postings = match convert_all(ast_postings) {
            Ok(v) => v,
            Err(e) => {
                return Err(e);
            },
        };
        let ghost pm = postings_model(postings@);
        match exec_scan_sums(&postings) {
            Err(SumFailure::TwoMissing) => {
                return Err(BalancingError {
                    message: String::from_str("Transaction has more than one posting with missing amount"),
                });
            },
            Err(SumFailure::Overflow) => {
                proof { assert(false); }
                return Err(BalancingError { message: String::new() });
            },
            Ok((entries, missing)) => {
                let ghost em = entries_model(entries@);
                let (count, first) = count_nonzero(&entries);
                match missing {
                    Some(idx) => {
                        if count > 1 {
                            return Err(BalancingError {
                                message: String::from_str(
                                    "Cannot infer missing amount: multiple currencies have non-zero sums",
                                ),
                            });
                        } else if count == 0 {
                            if entries.len() == 0 {
                                return Err(BalancingError {
                                    message: String::from_str(
                                        "Cannot infer missing amount: no other amounts in transaction to balance against",
                                    ),
                                });
                            }
                            let currency = entries[0].0.clone();
                            set_amount(&mut postings, idx, Decimal::zero(), currency);
                        } else {
                            let k = match first {
                                Some(k) => k,
                                None => {
                                    proof { lemma_first_nonzero_count(em); }
                                    0
                                },
                            };
                            proof { lemma_first_nonzero_count(em); }
                            let currency = entries[k].0.clone();
                            set_amount(&mut postings, idx, entries[k].1.neg(), currency);
                        }
                    },
                    None => {
                        if let Some(k) = first {
                            assert(entries_wf(em));
                            assert(em[k as int].1.wf());
                            let mut message = String::from_str("Transaction does not balance: sum of ");
                            message.append(entries[k].0.as_str());
                            message.append(" is ");
                            let shown = decimal_to_string(entries[k].1);
                            message.append(shown.as_str());
                            return Err(BalancingError { message });
                        }
                    },
                }
            },
        }
        Ok(Transaction {
            date: String::from_str(date),
            flag: String::from_str(flag),
            payee: clone_opt_string(payee),
            narration: clone_opt_string(narration),
            postings,
        })
    }

    /// Builds a transaction as `try_from_ast` does, or returns `None` where a
    /// sum would overflow.
    pub fn try_from_ast_checked(
        date: &str,
        flag: &str,
        payee: &Option<String>,
        narration: &Option<String>,
        ast_postings: &[ast::Posting],
    ) -> (r: Option<Result<Self, BalancingError>>)
        ensures
            r is None <==> build_overflows(ast_postings@),
            r matches Some(x) ==> built_from(date@, flag@, *payee, *narration, ast_postings@, x),
    {
        if let Ok(ps) = convert_all(ast_postings) {
            if let Err(SumFailure::Overflow) = exec_scan_sums(&ps) {
                return None;
            }
        }
        Some(Transaction::try_from_ast(date, flag, payee, narration, ast_postings))
    }
}

proof fn lemma_first_nonzero_count(e: Seq<(Seq<char>, Decimal)>)
    ensures
        nonzero_count(e) > 0 <==> first_nonzero(e) >= 0,
        first_nonzero(e) >= 0 ==> first_nonzero(e) < e.len() && !e[first_nonzero(e)].1.spec_is_zero(),
    decreases e.len(),
{
    if e.len() > 0 {
        lemma_first_nonzero_count(e.drop_last());
    }
}


proof fn lemma_first_nonzero_none(e: Seq<(Seq<char>, Decimal)>)
    ensures
        first_nonzero(e) < 0 ==> forall|k: int| 0 <= k < e.len() ==> (#[trigger] e[k]).1.spec_is_zero(),
    decreases e.len(),
{
    if e.len() > 0 {
        lemma_first_nonzero_none(e.drop_last());
        if first_nonzero(e) < 0 {
            assert forall|k: int| 0 <= k < e.len() implies (#[trigger] e[k]).1.spec_is_zero() by {
                if k < e.len() - 1 {
                    assert(e[k] == e.drop_last()[k]);
                }
            }
        }
    }
}

proof fn lemma_scan_missing(ps: Seq<PostingModel>, n: int)
    requires
        0 <= n <= ps.len(),
    ensures
        scan_sums(ps, n) matches Ok(st) ==> {
            &&& st.missing matches Some(j) ==> 0 <= j < n && ps[j].amount is None
            &&& forall|k: int|
                0 <= k < n && st.missing != Some(k) ==> (#[trigger] ps[k].amount) is Some
        },
    decreases n,
{
    if n > 0 {
        lemma_scan_missing(ps, n - 1);
    }
}

/// A balanced transaction has every amount: the balancing rule keeps every
/// posting that had an amount as it was and fills in the one that had none.
pub proof fn law_balance_fills_every_amount(ps: Seq<PostingModel>)
    ensures
        balance(ps) matches Ok(out) ==> {
            &&& out.len() == ps.len()
            &&& forall|k: int| 0 <= k < out.len() ==> (#[trigger] out[k]).amount is Some
            &&& forall|k: int| 0 <= k < out.len() && ps[k].amount is Some ==> #[trigger] out[k] == ps[k]
        },
{
    lemma_scan_missing(ps, ps.len() as int);
}

/// Without a posting to infer, a transaction balances exactly when the sum
/// in every currency is zero.
pub proof fn law_balanced_sums_are_zero(ps: Seq<PostingModel>)
    requires
        forall|k: int| 0 <= k < ps.len() ==> (#[trigger] ps[k].amount) is Some,
        !sums_overflow(ps),
    ensures
        scan_sums(ps, ps.len() as int) matches Ok(st) && (balance(ps) is Ok <==> forall|k: int|
            0 <= k < st.entries.len() ==> (#[trigger] st.entries[k]).1.spec_is_zero()),
{
    lemma_scan_missing(ps, ps.len() as int);
    if scan_sums(ps, ps.len() as int) == Err::<Sums, SumFailure>(SumFailure::TwoMissing) {
        lemma_scan_two_missing(ps, ps.len() as int);
    }
    if let Ok(st) = scan_sums(ps, ps.len() as int) {
        lemma_first_nonzero_none(st.entries);
        lemma_first_nonzero_count(st.entries);
    }
}

/// The sum, in the order of the postings, of the amounts in currency `c`
/// among the first `n` postings, added up from zero as the balancing rule
/// adds them (an addition that overflows leaves the sum as it was).
pub open spec fn currency_sum(ps: Seq<PostingModel>, n: int, c: Seq<char>) -> Decimal
    decreases n,
{
    if n <= 0 {
        Decimal::spec_zero()
    } else {
        let prev = currency_sum(ps, n - 1, c);
        match ps[n - 1].amount {
            Some(a) => if a.currency == c {
                match decimal_checked_add(prev, a.number) {
                    Some(v) => v,
                    None => prev,
                }
            } else {
                prev
            },
            None => prev,
        }
    }
}

/// Whether posting `m` has an amount in currency `c`.
pub open spec fn has_currency(ps: Seq<PostingModel>, m: int, c: Seq<char>) -> bool {
    ps[m].amount matches Some(b) && b.currency == c
}

/// Whether some posting among the first `n` has an amount in currency `c`.
pub open spec fn appears(ps: Seq<PostingModel>, n: int, c: Seq<char>) -> bool
    decreases n,
{
    n > 0 && (has_currency(ps, n - 1, c) || appears(ps, n - 1, c))
}

proof fn lemma_appears(ps: Seq<PostingModel>, n: int, c: Seq<char>)
    requires
        appears(ps, n, c),
    ensures
        exists|m: int| 0 <= m < n && #[trigger] has_currency(ps, m, c),
    decreases n,
{
    if !has_currency(ps, n - 1, c) {
        lemma_appears(ps, n - 1, c);
    }
}

/// No currency appears twice among the sums.
pub open spec fn currencies_distinct(e: Seq<(Seq<char>, Decimal)>) -> bool {
    forall|a: int, b: int| 0 <= a < b < e.len() ==> #[trigger] e[a].0 != #[trigger] e[b].0
}

proof fn lemma_index_from_update(e: Seq<(Seq<char>, Decimal)>, k0: int, v: Decimal, c2: Seq<char>, j: int)
    requires
        0 <= k0 < e.len(),
        0 <= j,
    ensures
        index_from(e.update(k0, (e[k0].0, v)), c2, j) == index_from(e, c2, j),
    decreases e.len() - j,
{
    if j < e.len() {
        assert(e.update(k0, (e[k0].0, v))[j].0 == e[j].0);
        lemma_index_from_update(e, k0, v, c2, j + 1);
    }
}

proof fn lemma_index_from_push(e: Seq<(Seq<char>, Decimal)>, c: Seq<char>, v: Decimal, c2: Seq<char>, j: int)
    requires
        0 <= j <= e.len(),
    ensures
        index_from(e.push((c, v)), c2, j) == (if index_from(e, c2, j) >= 0 {
            index_from(e, c2, j)
        } else if c2 == c {
            e.len() as int
        } else {
            -1
        }),
    decreases e.len() - j,
{
    let f = e.push((c, v));
    if j < e.len() {
        assert(f[j] == e[j]);
        lemma_index_from_push(e, c, v, c2, j + 1);
    } else {
        assert(f[j] == (c, v));
        assert(index_from(e, c2, j) == -1);
        assert(index_from(f, c2, j + 1) == -1);
    }
}

proof fn lemma_scan_sums_are_currency_sums(ps: Seq<PostingModel>, n: int)
    requires
        0 <= n <= ps.len(),
    ensures
        scan_sums(ps, n) matches Ok(st) ==> {
            &&& currencies_distinct(st.entries)
            &&& forall|p: int| 0 <= p < st.entries.len() ==> appears(ps, n, #[trigger] st.entries[p].0)
            &&& forall|c: Seq<char>|
                #![trigger currency_sum(ps, n, c)]
                {
                    let k = index_from(st.entries, c, 0);
                    &&& (k >= 0 ==> st.entries[k].1 == currency_sum(ps, n, c))
                    &&& (k < 0 ==> currency_sum(ps, n, c) == Decimal::spec_zero())
                }
        },
    decreases n,
{
    if n > 0 {
        lemma_scan_sums_are_currency_sums(ps, n - 1);
        if let Ok(st) = scan_sums(ps, n) {
            let st0 = scan_sums(ps, n - 1)->Ok_0;
            let e0 = st0.entries;
            match ps[n - 1].amount {
                Some(a) => {
                    let x = a.currency;
                    let k0 = index_from(e0, x, 0);
                    lemma_index_from(e0, x, 0);
                    if k0 >= 0 {
                        let v = decimal_checked_add(e0[k0].1, a.number)->Some_0;
                        assert(st.entries == e0.update(k0, (x, v)));
                        assert(e0[k0].0 == x);
                        assert(currencies_distinct(st.entries)) by {
                            assert forall|p: int, q: int| 0 <= p < q < st.entries.len() implies #[trigger] st.entries[p].0
                                != #[trigger] st.entries[q].0 by {
                                assert(st.entries[p].0 == e0[p].0);
                                assert(st.entries[q].0 == e0[q].0);
                            }
                        }
                        assert forall|p: int| 0 <= p < st.entries.len() implies appears(ps, n, #[trigger] st.entries[p].0) by {
                            assert(st.entries[p].0 == e0[p].0);
                            assert(appears(ps, n - 1, e0[p].0));
                        }
                        assert forall|c: Seq<char>| #![trigger currency_sum(ps, n, c)] {
                            let k = index_from(st.entries, c, 0);
                            &&& (k >= 0 ==> st.entries[k].1 == currency_sum(ps, n, c))
                            &&& (k < 0 ==> currency_sum(ps, n, c) == Decimal::spec_zero())
                        } by {
                            lemma_index_from_update(e0, k0, v, c, 0);
                            lemma_index_from(e0, c, 0);
                            let prev = currency_sum(ps, n - 1, c);
                            let k = index_from(e0, c, 0);
                            if c == x {
                                assert(k == k0);
                                assert(e0[k0].1 == prev);
                                assert(currency_sum(ps, n, c) == v);
                            } else {
                                assert(currency_sum(ps, n, c) == prev);
                                if k >= 0 {
                                    assert(k != k0);
                                    assert(st.entries[k] == e0[k]);
                                }
                            }
                        }
                    } else {
                        let v = decimal_checked_add(Decimal::spec_zero(), a.number)->Some_0;
                        assert(st.entries == e0.push((x, v)));
                        assert(currencies_distinct(st.entries)) by {
                            assert forall|p: int, q: int| 0 <= p < q < st.entries.len() implies #[trigger] st.entries[p].0
                                != #[trigger] st.entries[q].0 by {
                                assert(st.entries[p] == e0[p]);
                                if q < e0.len() {
                                    assert(st.entries[q] == e0[q]);
                                }
                            }
                        }
                        assert forall|p: int| 0 <= p < st.entries.len() implies appears(ps, n, #[trigger] st.entries[p].0) by {
                            if p < e0.len() {
                                assert(st.entries[p] == e0[p]);
                                assert(appears(ps, n - 1, e0[p].0));
                            } else {
                                assert(has_currency(ps, n - 1, st.entries[p].0));
                            }
                        }
                        assert forall|c: Seq<char>| #![trigger currency_sum(ps, n, c)] {
                            let k = index_from(st.entries, c, 0);
                            &&& (k >= 0 ==> st.entries[k].1 == currency_sum(ps, n, c))
                            &&& (k < 0 ==> currency_sum(ps, n, c) == Decimal::spec_zero())
                        } by {
                            lemma_index_from_push(e0, x, v, c, 0);
                            lemma_index_from(e0, c, 0);
                            let prev = currency_sum(ps, n - 1, c);
                            let k = index_from(e0, c, 0);
                            if c == x {
                                assert(k < 0);
                                assert(prev == Decimal::spec_zero());
                                assert(st.entries[e0.len() as int] == (x, v));
                                assert(currency_sum(ps, n, c) == v);
                            } else {
                                assert(currency_sum(ps, n, c) == prev);
                                if k >= 0 {
                                    assert(st.entries[k] == e0[k]);
                                }
                            }
                        }
                    }
                },
                None => {
                    assert(st.entries == e0);
                    assert forall|p: int| 0 <= p < st.entries.len() implies appears(ps, n, #[trigger] st.entries[p].0) by {
                        assert(appears(ps, n - 1, e0[p].0));
                    }
                    assert forall|c: Seq<char>| #![trigger currency_sum(ps, n, c)] {
                        let k = index_from(st.entries, c, 0);
                        &&& (k >= 0 ==> st.entries[k].1 == currency_sum(ps, n, c))
                        &&& (k < 0 ==> currency_sum(ps, n, c) == Decimal::spec_zero())
                    } by {
                        let prev = currency_sum(ps, n - 1, c);
                        assert(currency_sum(ps, n, c) == prev);
                    }
                },
            }
        }
    }
}

proof fn lemma_two_nonzero(e: Seq<(Seq<char>, Decimal)>, a: int, b: int)
    requires
        0 <= a < b < e.len(),
        !e[a].1.spec_is_zero(),
        !e[b].1.spec_is_zero(),
    ensures
        nonzero_count(e) >= 2,
    decreases e.len(),
{
    if b < e.len() - 1 {
        assert(e.drop_last()[a] == e[a]);
        assert(e.drop_last()[b] == e[b]);
        lemma_two_nonzero(e.drop_last(), a, b);
    } else {
        let d = e.drop_last();
        assert(d[a] == e[a]);
        lemma_first_nonzero_none(d);
        lemma_first_nonzero_count(d);
    }
}

/// A transaction that builds balances in every currency. With every amount
/// given, the amounts of each currency sum to zero. With one amount
/// missing, every other currency sums to zero and the inferred amount
/// cancels the sum of the other amounts of its currency, a currency of
/// some posting: it is the negation of that sum, or zero where that sum is
/// zero.
pub proof fn law_balance_cancels_every_currency(ps: Seq<PostingModel>)
    ensures
        balance(ps) matches Ok(out) ==> {
            &&& (forall|k: int| 0 <= k < ps.len() ==> (#[trigger] ps[k].amount) is Some) ==> forall|c: Seq<char>|
                #[trigger] currency_sum(ps, ps.len() as int, c).spec_is_zero()
            &&& forall|j: int|
                0 <= j < ps.len() && (#[trigger] ps[j].amount) is None ==> (out[j].amount matches Some(a) && {
                    let s = currency_sum(ps, ps.len() as int, a.currency);
                    &&& exists|m: int| 0 <= m < ps.len() && #[trigger] has_currency(ps, m, a.currency)
                    &&& (s.spec_is_zero() ==> a.number == Decimal::spec_zero())
                    &&& (!s.spec_is_zero() ==> a.number == s.spec_neg())
                    &&& forall|c: Seq<char>|
                        c != a.currency ==> #[trigger] currency_sum(ps, ps.len() as int, c).spec_is_zero()
                })
        },
{
    let n = ps.len() as int;
    lemma_scan_missing(ps, n);
    lemma_scan_sums_are_currency_sums(ps, n);
    if let Ok(out) = balance(ps) {
        let st = scan_sums(ps, n)->Ok_0;
        let e = st.entries;
        lemma_first_nonzero_count(e);
        lemma_first_nonzero_none(e);
        assert forall|c: Seq<char>| #![trigger currency_sum(ps, n, c)]
            index_from(e, c, 0) >= 0 ==> 0 <= index_from(e, c, 0) < e.len() && e[index_from(e, c, 0)].0 == c
        by {
            lemma_index_from(e, c, 0);
        }
        match st.missing {
            None => {
                assert forall|c: Seq<char>| #[trigger] currency_sum(ps, n, c).spec_is_zero() by {
                    lemma_index_from(e, c, 0);
                }
            },
            Some(idx) => {
                if nonzero_count(e) == 0 {
                    assert forall|c: Seq<char>| #[trigger] currency_sum(ps, n, c).spec_is_zero() by {
                        lemma_index_from(e, c, 0);
                    }
                    if e.len() > 0 {
                        assert(appears(ps, n, e[0].0));
                        lemma_appears(ps, n, e[0].0);
                    }
                } else {
                    let k = first_nonzero(e);
                    let c0 = e[k].0;
                    assert(appears(ps, n, e[k].0));
                    lemma_appears(ps, n, c0);
                    lemma_index_from(e, c0, 0);
                    assert(index_from(e, c0, 0) == k);
                    assert forall|c: Seq<char>| c != c0 implies #[trigger] currency_sum(ps, n, c).spec_is_zero() by {
                        lemma_index_from(e, c, 0);
                        let k2 = index_from(e, c, 0);
                        if k2 >= 0 && !e[k2].1.spec_is_zero() {
                            if k2 < k {
                                lemma_two_nonzero(e, k2, k);
                            } else {
                                lemma_two_nonzero(e, k, k2);
                            }
                        }
                    }
                }
            },
        }
    }
}

proof fn lemma_scan_two_missing(ps: Seq<PostingModel>, n: int)
    requires
        0 <= n <= ps.len(),
        scan_sums(ps, n) == Err::<Sums, SumFailure>(SumFailure::TwoMissing),
    ensures
        exists|k: int| 0 <= k < n && (#[trigger] ps[k].amount) is None,
    decreases n,
{
    if n > 0 {
        if scan_sums(ps, n - 1) == Err::<Sums, SumFailure>(SumFailure::TwoMissing) {
            lemma_scan_two_missing(ps, n - 1);
        } else {
            assert(ps[n - 1].amount is None);
        }
    }
}


/// Adds `x` to the sum of currency `c` (a new currency starts from zero);
/// `false`, with the sums unchanged, where the addition overflows.
pub(crate) fn add_into(entries: &mut Vec<(String, Decimal)>, c: &String, x: Decimal) -> (ok: bool)
    requires
        x.wf(),
        entries_wf(entries_model(old(entries)@)),
    ensures
        ok == add_to_sums(entries_model(old(entries)@), c@, x) is Some,
        ok ==> add_to_sums(entries_model(old(entries)@), c@, x) == Some(entries_model(final(entries)@)),
        ok ==> entries_wf(entries_model(final(entries)@)),
        !ok ==> final(entries)@ == old(entries)@,
{
    let ghost em = entries_model(entries@);
    match find_currency(entries, c) {
        Some(k) => {
            proof { lemma_index_from(em, c@, 0); }
            assert(em[k as int].1.wf());
            match checked_add(entries[k].1, x) {
                Some(v) => {
                    let key = entries[k].0.clone();
                    entries.set(k, (key, v));
                    assert(entries_model(entries@) =~= em.update(k as int, (c@, v)));
                    assert(entries_wf(entries_model(entries@))) by {
                        assert forall|j: int| 0 <= j < entries_model(entries@).len() implies (#[trigger] entries_model(entries@)[j]).1.wf() by {
                            if j != k {
                                assert(entries_model(entries@)[j] == em[j]);
                            }
                        }
                    }
                    true
                },
                None => false,
            }
        },
        None => {
            match checked_add(Decimal::zero(), x) {
                Some(v) => {
                    entries.push((c.clone(), v));
                    assert(entries_model(entries@) =~= em.push((c@, v)));
                    assert(entries_wf(entries_model(entries@))) by {
                        assert forall|j: int| 0 <= j < entries_model(entries@).len() implies (#[trigger] entries_model(entries@)[j]).1.wf() by {
                            if j < em.len() {
                                assert(entries_model(entries@)[j] == em[j]);
                            }
                        }
                    }
                    true
                },
                None => false,
            }
        },
    }
}

} // verus!
