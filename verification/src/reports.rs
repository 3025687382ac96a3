//! Trial balances: the sum of every account in every currency over a list
//! of transactions, sorted by account name.
use vstd::prelude::*;
use std::collections::HashMap;
use crate::decimal::Decimal;
use crate::ledger::{
    Posting, Transaction, add_to_sums, entries_model, entries_wf, add_into, find_currency,
    lemma_index_from, index_from,
};
use crate::text::str_chars;
use vstd::string::StringExecFns;

verus! {

/// The balances of one account: per currency, in the order the currencies
/// first appear in its postings, the sum of its amounts.
#[derive(Debug, Clone, PartialEq)]
pub struct AccountBalance {
    pub account: String,
    pub balances: Vec<(String, Decimal)>,
}

/// The balances of one account with the numbers as text, for a user
/// interface.
#[derive(Debug, Clone, PartialEq)]
pub struct AccountBalanceUi {
    pub account: String,
    pub balances: HashMap<String, String>,
}

/// A known amount of a posting: the account, the currency and the number.
pub struct Entry {
    pub account: Seq<char>,
    pub currency: Seq<char>,
    pub number: Decimal,
}

/// The known amounts of postings, in order.
pub open spec fn posting_entries(ps: Seq<Posting>) -> Seq<Entry>
    decreases ps.len(),
{
    if ps.len() == 0 {
        seq![]
    } else {
        let rest = posting_entries(ps.drop_last());
        match ps.last().amount {
            Some(a) => rest.push(Entry { account: ps.last().account@, currency: a.currency@, number: a.number }),
            None => rest,
        }
    }
}

/// The known amounts of the postings of transactions, in order.
pub open spec fn txn_entries(ts: Seq<Transaction>) -> Seq<Entry>
    decreases ts.len(),
{
    if ts.len() == 0 {
        seq![]
    } else {
        txn_entries(ts.drop_last()) + posting_entries(ts.last().postings@)
    }
}

/// The sums per currency of the amounts of account `acc`, added up in order
/// from zero; `None` if an addition overflows.
pub open spec fn account_totals(es: Seq<Entry>, acc: Seq<char>) -> Option<Seq<(Seq<char>, Decimal)>>
    decreases es.len(),
{
    if es.len() == 0 {
        Some(seq![])
    } else {
        match account_totals(es.drop_last(), acc) {
            None => None,
            Some(t) => if es.last().account == acc {
                add_to_sums(t, es.last().currency, es.last().number)
            } else {
                Some(t)
            },
        }
    }
}

/// Lexicographic order of texts by code point (the order of `String`).
pub open spec fn seq_lt(a: Seq<char>, b: Seq<char>) -> bool
    decreases a.len(),
{
    if b.len() == 0 {
        false
    } else if a.len() == 0 {
        true
    } else if (a[0] as int) < (b[0] as int) {
        true
    } else if (a[0] as int) > (b[0] as int) {
        false
    } else {
        seq_lt(a.drop_first(), b.drop_first())
    }
}

/// Every known amount is a valid decimal.
pub open spec fn entries_valid(es: Seq<Entry>) -> bool {
    forall|k: int| 0 <= k < es.len() ==> (#[trigger] es[k]).number.wf()
}

/// Whether summing some account's amounts overflows (where `rust_decimal`
/// panics).
pub open spec fn trial_overflows(ts: Seq<Transaction>) -> bool {
    let es = txn_entries(ts);
    exists|k: int| 0 <= k < es.len() && (#[trigger] account_totals(es, es[k].account)) is None
}

/// Whether `r` is the trial balance of the transactions: see
/// `balances_of`.
pub open spec fn trial_balances_of(ts: Seq<Transaction>, r: Seq<AccountBalance>) -> bool {
    balances_of(txn_entries(ts), r)
}

/// Whether `r` is the trial balance of the known amounts `es`: sorted
/// strictly by account, naming exactly the accounts of the amounts, each
/// with the sums of its amounts per currency.
pub open spec fn balances_of(es: Seq<Entry>, r: Seq<AccountBalance>) -> bool {
    &&& accounts_sorted(r)
    &&& accounts_named(es, r)
    &&& totals_match(es, r)
}

/// Strictly increasing accounts.
pub open spec fn accounts_sorted(r: Seq<AccountBalance>) -> bool {
    forall|i: int, j: int| 0 <= i < j < r.len() ==> seq_lt(#[trigger] r[i].account@, #[trigger] r[j].account@)
}

/// Every balance names an account of the amounts, and every account of the
/// amounts has a balance.
#[verifier::opaque]
pub open spec fn accounts_named(es: Seq<Entry>, r: Seq<AccountBalance>) -> bool {
    &&& forall|k: int| 0 <= k < r.len() ==> has_entry(es, (#[trigger] r[k]).account@)
    &&& forall|j: int| 0 <= j < es.len() ==> has_balance(r, (#[trigger] es[j]).account)
}

/// Whether some amount is of account `a`.
pub open spec fn has_entry(es: Seq<Entry>, a: Seq<char>) -> bool {
    exists|j: int| 0 <= j < es.len() && (#[trigger] es[j]).account == a
}

/// Whether some balance is of account `a`.
pub open spec fn has_balance(r: Seq<AccountBalance>, a: Seq<char>) -> bool {
    exists|k: int| 0 <= k < r.len() && (#[trigger] r[k]).account@ == a
}

/// Every balance holds the sums of its account.
#[verifier::opaque]
pub open spec fn totals_match(es: Seq<Entry>, r: Seq<AccountBalance>) -> bool {
    forall|k: int| 0 <= k < r.len() ==> account_totals(es, (#[trigger] r[k]).account@) == Some(entries_model(r[k].balances@))
}


/// No text comes before itself.
pub proof fn lemma_lt_irreflexive(a: Seq<char>)
    ensures
        !seq_lt(a, a),
    decreases a.len(),
{
    if a.len() > 0 {
        lemma_lt_irreflexive(a.drop_first());
    }
}

/// The order of texts is transitive.
pub proof fn lemma_lt_transitive(a: Seq<char>, b: Seq<char>, c: Seq<char>)
    requires
        seq_lt(a, b),
        seq_lt(b, c),
    ensures
        seq_lt(a, c),
    decreases a.len(),
{
    if a.len() > 0 && b.len() > 0 && c.len() > 0 && (a[0] as int) == (b[0] as int) && (b[0] as int) == (c[0] as int) {
        lemma_lt_transitive(a.drop_first(), b.drop_first(), c.drop_first());
    }
}

/// Of two different texts, one comes before the other.
pub proof fn lemma_lt_total(a: Seq<char>, b: Seq<char>)
    requires
        a != b,
    ensures
        seq_lt(a, b) || seq_lt(b, a),
    decreases a.len(),
{
    if a.len() > 0 && b.len() > 0 && (a[0] as int) == (b[0] as int) {
        assert(a[0] == b[0]);
        if a.drop_first() == b.drop_first() {
            assert(a =~= seq![a[0]] + a.drop_first());
            assert(b =~= seq![b[0]] + b.drop_first());
        }
        lemma_lt_total(a.drop_first(), b.drop_first());
    } else if a.len() == 0 && b.len() == 0 {
        assert(a =~= b);
    }
}

/// Texts are ordered as `String`s are: a text comes before every longer
/// text that extends it (and never after it), and two texts that first
/// differ at position `i` are ordered by their characters there.
pub proof fn law_text_order_is_string_order(a: Seq<char>, b: Seq<char>, i: int)
    ensures
        b.len() > 0 ==> seq_lt(a, a + b),
        !seq_lt(a + b, a),
        (0 <= i < a.len() && i < b.len() && a.take(i) == b.take(i) && (a[i] as int) < (b[i] as int))
            ==> seq_lt(a, b),
    decreases a.len(),
{
    if a.len() > 0 {
        assert((a + b)[0] == a[0]);
        assert((a + b).drop_first() =~= a.drop_first() + b);
        if 0 < i < a.len() && i < b.len() && a.take(i) == b.take(i) {
            assert(a.take(i)[0] == b.take(i)[0]);
            assert(a.drop_first().take(i - 1) =~= a.take(i).drop_first());
            assert(b.drop_first().take(i - 1) =~= b.take(i).drop_first());
            assert(a.drop_first()[i - 1] == a[i]);
            assert(b.drop_first()[i - 1] == b[i]);
        }
        law_text_order_is_string_order(a.drop_first(), b, i - 1);
        if 0 < i < a.len() && i < b.len() && a.take(i) == b.take(i) {
            law_text_order_is_string_order(a.drop_first(), b.drop_first(), i - 1);
        }
    } else {
        assert(a + b =~= b);
    }
}

/// The trial balance lists an account before its sub-accounts (every longer
/// name that extends it), and before every account whose name first differs
/// from it by a later character at position `p`.
pub proof fn law_trial_balance_order(ts: Seq<Transaction>, r: Seq<AccountBalance>, i: int, j: int, p: int)
    requires
        trial_balances_of(ts, r),
        0 <= i < r.len(),
        0 <= j < r.len(),
    ensures
        (r[i].account@.len() < r[j].account@.len() && r[j].account@.take(r[i].account@.len() as int)
            == r[i].account@) ==> i < j,
        (0 <= p < r[i].account@.len() && p < r[j].account@.len() && r[i].account@.take(p)
            == r[j].account@.take(p) && (r[i].account@[p] as int) < (r[j].account@[p] as int)) ==> i < j,
{
    let a = r[i].account@;
    let b = r[j].account@;
    law_text_order_is_string_order(a, b, p);
    if a.len() < b.len() && b.take(a.len() as int) == a {
        assert(b =~= a + b.skip(a.len() as int));
        law_text_order_is_string_order(a, b.skip(a.len() as int), p);
    }
    if seq_lt(a, b) && j <= i {
        lemma_lt_irreflexive(a);
        if j < i {
            assert(seq_lt(r[j].account@, r[i].account@));
            lemma_lt_transitive(a, b, a);
        }
    }
}

fn string_lt(a: &String, b: &String) -> (r: bool)
    ensures
        r == seq_lt(a@, b@),
{
    let ca = str_chars(a.as_str());
    let cb = str_chars(b.as_str());
    let mut i: usize = 0;
    assert(a@.skip(0) =~= a@);
    assert(b@.skip(0) =~= b@);
    while i < ca.len() && i < cb.len() && ca[i] == cb[i]
        invariant
            ca@ == a@,
            cb@ == b@,
            i <= ca@.len(),
            i <= cb@.len(),
            seq_lt(a@, b@) == seq_lt(a@.skip(i as int), b@.skip(i as int)),
        decreases ca@.len() - i,
    {
        assert(a@.skip(i as int).drop_first() =~= a@.skip(i + 1));
        assert(b@.skip(i as int).drop_first() =~= b@.skip(i + 1));
        i = i + 1;
    }
    if i == cb.len() {
        false
    } else if i == ca.len() {
        true
    } else {
        ca[i] < cb[i]
    }
}

proof fn lemma_posting_entries_concat(a: Seq<Posting>, b: Seq<Posting>)
    ensures
        posting_entries(a + b) == posting_entries(a) + posting_entries(b),
    decreases b.len(),
{
    if b.len() == 0 {
        assert(a + b =~= a);
        assert(posting_entries(a) + posting_entries(b) =~= posting_entries(a));
    } else {
        assert((a + b).drop_last() =~= a + b.drop_last());
        lemma_posting_entries_concat(a, b.drop_last());
        assert((a + b).last() == b.last());
        let pe = posting_entries(a);
        let pb = posting_entries(b.drop_last());
        match b.last().amount {
            Some(am) => {
                let e = Entry { account: b.last().account@, currency: am.currency@, number: am.number };
                assert((pe + pb).push(e) =~= pe + pb.push(e));
            },
            None => {},
        }
    }
}

proof fn lemma_txn_entries_concat(a: Seq<Transaction>, b: Seq<Transaction>)
    ensures
        txn_entries(a + b) == txn_entries(a) + txn_entries(b),
    decreases b.len(),
{
    if b.len() == 0 {
        assert(a + b =~= a);
        assert(txn_entries(a) + txn_entries(b) =~= txn_entries(a));
    } else {
        assert((a + b).drop_last() =~= a + b.drop_last());
        lemma_txn_entries_concat(a, b.drop_last());
        assert((a + b).last() == b.last());
        assert(txn_entries(a + b) =~= txn_entries(a) + txn_entries(b));
    }
}

proof fn lemma_totals_none_extends(p: Seq<Entry>, q: Seq<Entry>, acc: Seq<char>)
    requires
        account_totals(p, acc) is None,
    ensures
        account_totals(p + q, acc) is None,
    decreases q.len(),
{
    if q.len() == 0 {
        assert(p + q =~= p);
    } else {
        lemma_totals_none_extends(p, q.drop_last(), acc);
        assert((p + q).drop_last() =~= p + q.drop_last());
    }
}

proof fn lemma_totals_absent(es: Seq<Entry>, acc: Seq<char>)
    requires
        forall|j: int| 0 <= j < es.len() ==> (#[trigger] es[j]).account != acc,
    ensures
        account_totals(es, acc) == Some(Seq::<(Seq<char>, Decimal)>::empty()),
    decreases es.len(),
{
    if es.len() > 0 {
        assert forall|j: int| 0 <= j < es.drop_last().len() implies (#[trigger] es.drop_last()[j]).account != acc by {
            assert(es.drop_last()[j] == es[j]);
        }
        lemma_totals_absent(es.drop_last(), acc);
        assert(es.last() == es[es.len() - 1]);
    }
}


/// All balances are valid decimals.
pub open spec fn balances_wf(r: Seq<AccountBalance>) -> bool {
    forall|k: int| 0 <= k < r.len() ==> entries_wf(entries_model((#[trigger] r[k]).balances@))
}

proof fn lemma_totals_push(es: Seq<Entry>, e: Entry, acc: Seq<char>)
    ensures
        account_totals(es.push(e), acc) == (match account_totals(es, acc) {
            None => None,
            Some(t) => if e.account == acc { add_to_sums(t, e.currency, e.number) } else { Some(t) },
        }),
{
    assert(es.push(e).drop_last() =~= es);
}

proof fn lemma_not_found(done: Seq<Entry>, r0: Seq<AccountBalance>, acc: Seq<char>, pos: int)
    requires
        balances_of(done, r0),
        0 <= pos <= r0.len(),
        forall|k: int| 0 <= k < pos ==> seq_lt(#[trigger] r0[k].account@, acc),
        pos < r0.len() ==> !seq_lt(r0[pos].account@, acc) && r0[pos].account@ != acc,
    ensures
        forall|k: int| 0 <= k < r0.len() ==> (#[trigger] r0[k]).account@ != acc,
        account_totals(done, acc) == Some(Seq::<(Seq<char>, Decimal)>::empty()),
{
    reveal(accounts_named);
    assert forall|k: int| 0 <= k < r0.len() implies (#[trigger] r0[k]).account@ != acc by {
        if k < pos {
            lemma_lt_irreflexive(acc);
        } else if k > pos {
            if r0[k].account@ == acc {
                assert(seq_lt(r0[pos].account@, r0[k].account@));
            }
        }
    }
    assert forall|j: int| 0 <= j < done.len() implies (#[trigger] done[j]).account != acc by {
        assert(has_balance(r0, done[j].account));
        let k = choose|k: int| 0 <= k < r0.len() && (#[trigger] r0[k]).account@ == done[j].account;
    }
    lemma_totals_absent(done, acc);
}

proof fn lemma_found_unique(r0: Seq<AccountBalance>, acc: Seq<char>, pos: int)
    requires
        forall|i: int, j: int| 0 <= i < j < r0.len() ==> seq_lt(#[trigger] r0[i].account@, #[trigger] r0[j].account@),
        0 <= pos < r0.len(),
        r0[pos].account@ == acc,
    ensures
        forall|k: int| 0 <= k < r0.len() && k != pos ==> (#[trigger] r0[k]).account@ != acc,
{
    lemma_lt_irreflexive(acc);
    assert forall|k: int| 0 <= k < r0.len() && k != pos implies (#[trigger] r0[k]).account@ != acc by {
        if k < pos {
            assert(seq_lt(r0[k].account@, r0[pos].account@));
        } else {
            assert(seq_lt(r0[pos].account@, r0[k].account@));
        }
    }
}

proof fn lemma_update_case(done: Seq<Entry>, e: Entry, r0: Seq<AccountBalance>, pos: int, ab: AccountBalance)
    requires
        balances_of(done, r0),
        balances_wf(r0),
        0 <= pos < r0.len(),
        r0[pos].account@ == e.account,
        ab.account@ == e.account,
        account_totals(done.push(e), e.account) == Some(entries_model(ab.balances@)),
        entries_wf(entries_model(ab.balances@)),
    ensures
        balances_of(done.push(e), r0.update(pos, ab)),
        balances_wf(r0.update(pos, ab)),
{
    reveal(accounts_named);
    reveal(totals_match);
    let nd = done.push(e);
    let r = r0.update(pos, ab);
    lemma_found_unique(r0, e.account, pos);
    assert forall|k: int| 0 <= k < r.len() implies account_totals(nd, (#[trigger] r[k]).account@) == Some(entries_model(r[k].balances@)) by {
        if k != pos {
            assert(r[k] == r0[k]);
            lemma_totals_push(done, e, r0[k].account@);
        }
    }
    assert forall|k: int| 0 <= k < r.len() implies has_entry(nd, (#[trigger] r[k]).account@) by {
        assert(r[k].account@ == r0[k].account@);
        assert(has_entry(done, r0[k].account@));
        let j = choose|j: int| 0 <= j < done.len() && (#[trigger] done[j]).account == r0[k].account@;
        assert(nd[j] == done[j]);
    }
    assert forall|j: int| 0 <= j < nd.len() implies has_balance(r, (#[trigger] nd[j]).account) by {
        if j < done.len() {
            assert(nd[j] == done[j]);
            assert(has_balance(r0, done[j].account));
            let k = choose|k: int| 0 <= k < r0.len() && (#[trigger] r0[k]).account@ == done[j].account;
            assert(r[k].account@ == r0[k].account@);
        } else {
            assert(r[pos].account@ == nd[j].account);
        }
    }
    assert forall|i: int, j: int| 0 <= i < j < r.len() implies seq_lt(#[trigger] r[i].account@, #[trigger] r[j].account@) by {
        assert(r[i].account@ == r0[i].account@);
        assert(r[j].account@ == r0[j].account@);
    }
    assert forall|k: int| 0 <= k < r.len() implies entries_wf(entries_model((#[trigger] r[k]).balances@)) by {
        if k != pos {
            assert(r[k] == r0[k]);
        }
    }
}

proof fn lemma_insert_sorted(r0: Seq<AccountBalance>, pos: int, ab: AccountBalance)
    requires
        accounts_sorted(r0),
        0 <= pos <= r0.len(),
        forall|k: int| 0 <= k < pos ==> seq_lt(#[trigger] r0[k].account@, ab.account@),
        pos < r0.len() ==> !seq_lt(r0[pos].account@, ab.account@) && r0[pos].account@ != ab.account@,
    ensures
        accounts_sorted(r0.insert(pos, ab)),
{
    let r = r0.insert(pos, ab);
    let acc = ab.account@;
    if pos < r0.len() {
        lemma_lt_total(r0[pos].account@, acc);
    }
    assert forall|i: int, j: int| 0 <= i < j < r.len() implies seq_lt(#[trigger] r[i].account@, #[trigger] r[j].account@) by {
        if j < pos {
            assert(r[i] == r0[i]);
            assert(r[j] == r0[j]);
        } else if j == pos {
            assert(r[i] == r0[i]);
        } else if i < pos {
            assert(r[i] == r0[i]);
            assert(r[j] == r0[j - 1]);
            lemma_lt_transitive(r0[i].account@, acc, r0[pos].account@);
            if j - 1 > pos {
                lemma_lt_transitive(r0[i].account@, r0[pos].account@, r0[j - 1].account@);
            }
        } else if i == pos {
            assert(r[j] == r0[j - 1]);
            if j - 1 > pos {
                lemma_lt_transitive(acc, r0[pos].account@, r0[j - 1].account@);
            }
        } else {
            assert(r[i] == r0[i - 1]);
            assert(r[j] == r0[j - 1]);
        }
    }
}

proof fn lemma_insert_totals(done: Seq<Entry>, e: Entry, r0: Seq<AccountBalance>, pos: int, ab: AccountBalance)
    requires
        totals_match(done, r0),
        balances_wf(r0),
        0 <= pos <= r0.len(),
        forall|k: int| 0 <= k < r0.len() ==> (#[trigger] r0[k]).account@ != e.account,
        ab.account@ == e.account,
        account_totals(done.push(e), e.account) == Some(entries_model(ab.balances@)),
        entries_wf(entries_model(ab.balances@)),
    ensures
        totals_match(done.push(e), r0.insert(pos, ab)),
        balances_wf(r0.insert(pos, ab)),
{
    reveal(totals_match);
    let nd = done.push(e);
    let r = r0.insert(pos, ab);
    assert forall|k: int| 0 <= k < r.len() implies account_totals(nd, (#[trigger] r[k]).account@) == Some(entries_model(r[k].balances@)) by {
        if k < pos {
            assert(r[k] == r0[k]);
            lemma_totals_push(done, e, r0[k].account@);
        } else if k > pos {
            assert(r[k] == r0[k - 1]);
            lemma_totals_push(done, e, r0[k - 1].account@);
        }
    }
    assert forall|k: int| 0 <= k < r.len() implies entries_wf(entries_model((#[trigger] r[k]).balances@)) by {
        if k < pos {
            assert(r[k] == r0[k]);
        } else if k > pos {
            assert(r[k] == r0[k - 1]);
        }
    }
}

proof fn lemma_insert_cover(done: Seq<Entry>, e: Entry, r0: Seq<AccountBalance>, pos: int, ab: AccountBalance)
    requires
        accounts_named(done, r0),
        0 <= pos <= r0.len(),
        ab.account@ == e.account,
    ensures
        accounts_named(done.push(e), r0.insert(pos, ab)),
{
    reveal(accounts_named);
    let nd = done.push(e);
    let r = r0.insert(pos, ab);
    assert forall|k: int| 0 <= k < r.len() implies has_entry(nd, (#[trigger] r[k]).account@) by {
        if k == pos {
            assert(nd[nd.len() - 1].account == r[k].account@);
        } else {
            let k0 = if k < pos { k } else { k - 1 };
            assert(r[k] == r0[k0]);
            assert(has_entry(done, r0[k0].account@));
            let j = choose|j: int| 0 <= j < done.len() && (#[trigger] done[j]).account == r0[k0].account@;
            assert(nd[j] == done[j]);
        }
    }
    assert forall|j: int| 0 <= j < nd.len() implies has_balance(r, (#[trigger] nd[j]).account) by {
        if j < done.len() {
            assert(nd[j] == done[j]);
            assert(has_balance(r0, done[j].account));
            let k = choose|k: int| 0 <= k < r0.len() && (#[trigger] r0[k]).account@ == done[j].account;
            if k < pos {
                assert(r[k] == r0[k]);
            } else {
                assert(r[k + 1] == r0[k]);
            }
        } else {
            assert(r[pos].account@ == nd[j].account);
        }
    }
}

proof fn lemma_insert_case(done: Seq<Entry>, e: Entry, r0: Seq<AccountBalance>, pos: int, ab: AccountBalance)
    requires
        balances_of(done, r0),
        balances_wf(r0),
        0 <= pos <= r0.len(),
        forall|k: int| 0 <= k < pos ==> seq_lt(#[trigger] r0[k].account@, e.account),
        pos < r0.len() ==> !seq_lt(r0[pos].account@, e.account) && r0[pos].account@ != e.account,
        ab.account@ == e.account,
        account_totals(done.push(e), e.account) == Some(entries_model(ab.balances@)),
        entries_wf(entries_model(ab.balances@)),
    ensures
        balances_of(done.push(e), r0.insert(pos, ab)),
        balances_wf(r0.insert(pos, ab)),
{
    lemma_not_found(done, r0, e.account, pos);
    lemma_insert_sorted(r0, pos, ab);
    lemma_insert_totals(done, e, r0, pos, ab);
    lemma_insert_cover(done, e, r0, pos, ab);
}

/// Adds one known amount to sorted balances; `false` where the sum of the
/// account's currency overflows.
fn add_entry(
    r: &mut Vec<AccountBalance>,
    account: &String,
    currency: &String,
    number: Decimal,
    Ghost(done): Ghost<Seq<Entry>>,
) -> (ok: bool)
    requires
        balances_of(done, old(r)@),
        balances_wf(old(r)@),
        number.wf(),
    ensures
        ok ==> balances_of(done.push(Entry { account: account@, currency: currency@, number }), final(r)@),
        ok ==> balances_wf(final(r)@),
        !ok ==> account_totals(done.push(Entry { account: account@, currency: currency@, number }), account@) is None,
{
    let ghost e = Entry { account: account@, currency: currency@, number };
    let ghost r0 = r@;
    proof { lemma_totals_push(done, e, account@); }
    let n = r.len();
    let mut pos: usize = 0;
    while pos < n && string_lt(&r[pos].account, account)
        invariant
            n == r@.len(),
            r@ == r0,
            pos <= n,
            forall|k: int| 0 <= k < pos ==> seq_lt(#[trigger] r0[k].account@, account@),
        decreases n - pos,
    {
        pos = pos + 1;
    }
    if pos < n && r[pos].account == *account {
        let mut ab = r.remove(pos);
        proof { reveal(totals_match); }
        assert(account_totals(done, account@) == Some(entries_model(ab.balances@)));
        assert(entries_wf(entries_model(ab.balances@)));
        let ok = add_into(&mut ab.balances, currency, number);
        if !ok {
            return false;
        }
        r.insert(pos, ab);
        proof {
            assert(r@ =~= r0.update(pos as int, ab));
            lemma_update_case(done, e, r0, pos as int, ab);
        }
        true
    } else {
        proof { lemma_not_found(done, r0, account@, pos as int); }
        let mut bal: Vec<(String, Decimal)> = Vec::new();
        assert(entries_model(bal@) =~= Seq::<(Seq<char>, Decimal)>::empty());
        let ok = add_into(&mut bal, currency, number);
        if !ok {
            return false;
        }
        let ab = AccountBalance { account: account.clone(), balances: bal };
        r.insert(pos, ab);
        proof { lemma_insert_case(done, e, r0, pos as int, ab); }
        true
    }
}


proof fn lemma_posting_entries_single(p: Posting)
    ensures
        posting_entries(seq![p]) == (match p.amount {
            Some(a) => seq![Entry { account: p.account@, currency: a.currency@, number: a.number }],
            None => Seq::<Entry>::empty(),
        }),
{
    reveal_with_fuel(posting_entries, 2);
    assert(seq![p].drop_last() =~= Seq::<Posting>::empty());
    assert(seq![p].last() == p);
    match p.amount {
        Some(a) => {
            assert(Seq::<Entry>::empty().push(Entry { account: p.account@, currency: a.currency@, number: a.number })
                =~= seq![Entry { account: p.account@, currency: a.currency@, number: a.number }]);
        },
        None => {},
    }
}

proof fn lemma_txn_entries_single(t: Transaction)
    ensures
        txn_entries(seq![t]) == posting_entries(t.postings@),
{
    reveal_with_fuel(txn_entries, 2);
    assert(seq![t].drop_last() =~= Seq::<Transaction>::empty());
    assert(seq![t].last() == t);
    assert(Seq::<Entry>::empty() + posting_entries(t.postings@) =~= posting_entries(t.postings@));
}

fn trial_core(ts: &[Transaction]) -> (r: Option<Vec<AccountBalance>>)
    requires
        entries_valid(txn_entries(ts@)),
    ensures
        r is None <==> trial_overflows(ts@),
        r matches Some(v) ==> trial_balances_of(ts@, v@),
{
    let ghost es = txn_entries(ts@);
    let mut result: Vec<AccountBalance> = Vec::new();
    let ghost mut done: Seq<Entry> = seq![];
    proof {
        reveal(accounts_named);
        reveal(totals_match);
        assert(ts@.skip(0) =~= ts@);
        assert(es =~= done + txn_entries(ts@.skip(0)));
    }
    let mut i: usize = 0;
    while i < ts.len()
        invariant
            es == txn_entries(ts@),
            entries_valid(es),
            i <= ts@.len(),
            es == done + txn_entries(ts@.skip(i as int)),
            balances_of(done, result@),
            balances_wf(result@),
        decreases ts@.len() - i,
    {
        let postings = &ts[i].postings;
        proof {
            assert(ts@.skip(i as int) =~= seq![ts@[i as int]] + ts@.skip(i + 1));
            lemma_txn_entries_concat(seq![ts@[i as int]], ts@.skip(i + 1));
            lemma_txn_entries_single(ts@[i as int]);
            assert(postings@.skip(0) =~= postings@);
            assert(es =~= done + (posting_entries(postings@.skip(0)) + txn_entries(ts@.skip(i + 1))));
        }
        let mut j: usize = 0;
        while j < postings.len()
            invariant
                es == txn_entries(ts@),
                entries_valid(es),
                i < ts@.len(),
                *postings == ts@[i as int].postings,
                j <= postings@.len(),
                es == done + (posting_entries(postings@.skip(j as int)) + txn_entries(ts@.skip(i + 1))),
                balances_of(done, result@),
                balances_wf(result@),
            decreases postings@.len() - j,
        {
            let ghost rest = txn_entries(ts@.skip(i + 1));
            proof {
                assert(postings@.skip(j as int) =~= seq![postings@[j as int]] + postings@.skip(j + 1));
                lemma_posting_entries_concat(seq![postings@[j as int]], postings@.skip(j + 1));
                lemma_posting_entries_single(postings@[j as int]);
            }
            let p = &postings[j];
            match &p.amount {
                Some(a) => {
                    let ghost e = Entry { account: p.account@, currency: a.currency@, number: a.number };
                    proof {
                        assert(es =~= done.push(e) + (posting_entries(postings@.skip(j + 1)) + rest));
                        assert(es[done.len() as int] == e);
                    }
                    let ok = add_entry(&mut result, &p.account, &a.currency, a.number, Ghost(done));
                    if !ok {
                        proof {
                            lemma_totals_none_extends(done.push(e), posting_entries(postings@.skip(j + 1)) + rest, e.account);
                            assert(es[done.len() as int].account == e.account);
                            assert(account_totals(es, es[done.len() as int].account) is None);
                        }
                        return None;
                    }
                    proof { done = done.push(e); }
                },
                None => {
                    proof {
                        assert(es =~= done + (posting_entries(postings@.skip(j + 1)) + rest));
                    }
                },
            }
            j = j + 1;
        }
        proof {
            assert(postings@.skip(j as int) =~= Seq::<Posting>::empty());
            assert(posting_entries(Seq::<Posting>::empty()) =~= Seq::<Entry>::empty());
            assert(es =~= done + txn_entries(ts@.skip(i + 1)));
        }
        i = i + 1;
    }
    proof {
        assert(ts@.skip(i as int) =~= Seq::<Transaction>::empty());
        assert(txn_entries(Seq::<Transaction>::empty()) =~= Seq::<Entry>::empty());
        assert(es =~= done);
        reveal(accounts_named);
        reveal(totals_match);
        assert forall|k: int| 0 <= k < es.len() implies !(#[trigger] account_totals(es, es[k].account) is None) by {
            assert(has_balance(result@, es[k].account));
            let kk = choose|kk: int| 0 <= kk < result@.len() && (#[trigger] result@[kk]).account@ == es[k].account;
        }
    }
    Some(result)
}

/// The trial balance: for every account with a known amount, in ascending
/// order of account name, the sum of its amounts in each currency (see
/// `trial_balances_of`). A sum that overflows is left out by `requires`
/// (`rust_decimal` panics there); `calculate_trial_balances_checked` tests
/// for it.
pub fn calculate_trial_balances(transactions: &[Transaction]) -> (r: Vec<AccountBalance>)
    requires
        entries_valid(txn_entries(transactions@)),
        !trial_overflows(transactions@),
    ensures
        trial_balances_of(transactions@, r@),
{
    match trial_core(transactions) {
        Some(v) => v,
        None => {
            proof { assert(false); }
            Vec::new()
        },
    }
}

/// The trial balance as `calculate_trial_balances` computes it, or `None`
/// where a sum would overflow.
pub fn calculate_trial_balances_checked(transactions: &[Transaction]) -> (r: Option<Vec<AccountBalance>>)
    requires
        entries_valid(txn_entries(transactions@)),
    ensures
        r is None <==> trial_overflows(transactions@),
        r matches Some(v) ==> trial_balances_of(transactions@, v@),
{
    if trial_core(transactions).is_none() {
        return None;
    }
    Some(calculate_trial_balances(transactions))
}

impl AccountBalance {
    /// The sum in `currency`, if the account has one.
    pub fn balance_of(&self, currency: &str) -> (r: Option<Decimal>)
        ensures
            ({
                let m = entries_model(self.balances@);
                let k = index_from(m, currency@, 0);
                r == (if k >= 0 { Some(m[k].1) } else { None::<Decimal> })
            }),
    {
        let key = String::from_str(currency);
        match find_currency(&self.balances, &key) {
            Some(k) => Some(self.balances[k].1),
            None => None,
        }
    }
}

} // verus!
