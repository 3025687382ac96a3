//! The Markdown lexer: headings, words, fenced code blocks, newlines and
//! blanks, with the longest match winning at every position.
use vstd::prelude::*;
use vstd::string::StringExecFns;
use vstd::string::StringSliceAdditionalSpecFns;
use crate::parser::{Diagnostic, Label, LabelStyle, Severity, Span};

verus! {

/// What the lexer failed on.
#[derive(Debug, Clone, PartialEq, Default)]
pub enum LexerError {
    #[default]
    Invalid,
}

/// A token of Markdown source.
#[derive(Debug, PartialEq, Eq, Structural, Copy, Clone)]
pub enum Token {
    EOF,
    Heading1,
    Heading2,
    Heading3,
    Heading4,
    Heading5,
    Heading6,
    Text,
    CodeBlock,
    Newline,
    Whitespace,
    Error,
}

impl LexerError {
    /// The diagnostic for this error at `span`: an error "invalid token"
    /// with one primary label on the span.
    pub fn into_diagnostic(self, span: Span) -> (d: Diagnostic)
        ensures
            d.severity == Severity::Error,
            d.code is None,
            d.message@ == "invalid token"@,
            d.labels@.len() == 1,
            d.labels@[0].style == LabelStyle::Primary,
            d.labels@[0].range == span,
            d.labels@[0].message@ == Seq::<char>::empty(),
            d.notes@.len() == 0,
    {
        match self {
            LexerError::Invalid => {
                let mut labels: Vec<Label> = Vec::new();
                labels.push(Label { style: LabelStyle::Primary, range: span, message: String::new() });
                Diagnostic {
                    severity: Severity::Error,
                    code: None,
                    message: String::from_str("invalid token"),
                    labels,
                    notes: Vec::new(),
                }
            },
        }
    }
}


/// The length of the word (`Text`) that starts at `i`: a maximal sequence of
/// units, each a byte that is none of `#`, newline, backtick, space, tab; or
/// `#` and a byte other than a space; or a backtick and a byte other than a
/// backtick.
pub open spec fn text_len(s: Seq<u8>, i: int) -> nat
    decreases s.len() - i,
{
    if i < 0 || i >= s.len() {
        0
    } else if s[i] == 10u8 || s[i] == 32u8 || s[i] == 9u8 {
        0
    } else if s[i] == 35u8 {
        if i + 1 < s.len() && s[i + 1] != 32u8 { 2 + text_len(s, i + 2) } else { 0 }
    } else if s[i] == 96u8 {
        if i + 1 < s.len() && s[i + 1] != 96u8 { 2 + text_len(s, i + 2) } else { 0 }
    } else {
        1 + text_len(s, i + 1)
    }
}

/// The length of the run of spaces and tabs that starts at `i`.
pub open spec fn blank_len(s: Seq<u8>, i: int) -> nat
    decreases s.len() - i,
{
    if 0 <= i < s.len() && (s[i] == 32u8 || s[i] == 9u8) { 1 + blank_len(s, i + 1) } else { 0 }
}

/// The length of the run of `#` that starts at `i`.
pub open spec fn hash_len(s: Seq<u8>, i: int) -> nat
    decreases s.len() - i,
{
    if 0 <= i < s.len() && s[i] == 35u8 { 1 + hash_len(s, i + 1) } else { 0 }
}

/// An ASCII letter or digit.
pub open spec fn is_ascii_alnum(b: u8) -> bool {
    (48u8 <= b <= 57u8) || (65u8 <= b <= 90u8) || (97u8 <= b <= 122u8)
}

/// The length of the run of ASCII letters and digits that starts at `i`.
pub open spec fn alnum_len(s: Seq<u8>, i: int) -> nat
    decreases s.len() - i,
{
    if 0 <= i < s.len() && is_ascii_alnum(s[i]) { 1 + alnum_len(s, i + 1) } else { 0 }
}

/// Whether three backticks start at `q`.
pub open spec fn fence_at(s: Seq<u8>, q: int) -> bool {
    0 <= q && q + 3 <= s.len() && s[q] == 96u8 && s[q + 1] == 96u8 && s[q + 2] == 96u8
}

/// The first position at or after `q` where three backticks start, or -1.
pub open spec fn fence_from(s: Seq<u8>, q: int) -> int
    decreases s.len() - q,
{
    if q < 0 || q + 3 > s.len() {
        -1
    } else if fence_at(s, q) {
        q
    } else {
        fence_from(s, q + 1)
    }
}

/// The heading token of level `k` (1 to 6).
pub open spec fn heading(k: int) -> Token {
    if k == 1 {
        Token::Heading1
    } else if k == 2 {
        Token::Heading2
    } else if k == 3 {
        Token::Heading3
    } else if k == 4 {
        Token::Heading4
    } else if k == 5 {
        Token::Heading5
    } else {
        Token::Heading6
    }
}

/// The bytes of `<error>`.
pub open spec fn error_word() -> Seq<u8> {
    seq![60u8, 101u8, 114u8, 114u8, 111u8, 114u8, 62u8]
}

/// What the lexer takes at one position: a token and its length in bytes, or
/// an invalid stretch of the given length.
pub enum Scan {
    Tok(Token, int),
    Invalid(int),
}

/// The length of what a scan takes.
pub open spec fn scan_len(x: Scan) -> int {
    match x {
        Scan::Tok(_, n) => n,
        Scan::Invalid(n) => n,
    }
}

/// What the lexer takes at byte `i` (in range) of `s`, the longest match of
/// all token patterns:
/// - a newline; a run of spaces and tabs;
/// - `#` repeated 1 to 6 times and a space: a heading of that level;
/// - three backticks, ASCII letters and digits, a newline, and everything up
///   to and including the next three backticks: a code block;
/// - a word (see `text_len`), except that the word `<error>` alone is the
///   `Error` token.
/// Where no pattern matches, the invalid stretch runs as far as some pattern
/// could still have matched: a lone `#` or backtick at the end, two
/// backticks, or a fence whose info string is not followed by a newline (up
/// to that byte) or whose block is never closed (up to the end).
pub open spec fn scan_at(s: Seq<u8>, i: int) -> Scan {
    let b = s[i];
    if b == 10u8 {
        Scan::Tok(Token::Newline, 1)
    } else if b == 32u8 || b == 9u8 {
        Scan::Tok(Token::Whitespace, blank_len(s, i) as int)
    } else if b == 35u8 {
        let k = hash_len(s, i) as int;
        if k <= 6 && i + k < s.len() && s[i + k] == 32u8 {
            Scan::Tok(heading(k), k + 1)
        } else if text_len(s, i) > 0 {
            Scan::Tok(Token::Text, text_len(s, i) as int)
        } else {
            Scan::Invalid(1)
        }
    } else if b == 96u8 && fence_at(s, i) {
        let p = i + 3 + alnum_len(s, i + 3);
        if p < s.len() && s[p] == 10u8 {
            let q = fence_from(s, p + 1);
            if q >= 0 {
                Scan::Tok(Token::CodeBlock, q + 3 - i)
            } else {
                Scan::Invalid(s.len() - i)
            }
        } else {
            Scan::Invalid(p - i)
        }
    } else if b == 96u8 {
        if text_len(s, i) > 0 {
            Scan::Tok(Token::Text, text_len(s, i) as int)
        } else if i + 1 < s.len() {
            Scan::Invalid(2)
        } else {
            Scan::Invalid(1)
        }
    } else {
        let t = text_len(s, i) as int;
        if t == 7 && s.subrange(i, i + 7) == error_word() {
            Scan::Tok(Token::Error, 7)
        } else {
            Scan::Tok(Token::Text, t)
        }
    }
}

proof fn lemma_text_len_bound(s: Seq<u8>, i: int)
    requires
        0 <= i,
    ensures
        i + text_len(s, i) <= s.len() || text_len(s, i) == 0,
    decreases s.len() - i,
{
    if i < s.len() {
        lemma_text_len_bound(s, i + 1);
        if i + 2 <= s.len() {
            lemma_text_len_bound(s, i + 2);
        }
    }
}

proof fn lemma_runs_bound(s: Seq<u8>, i: int)
    requires
        0 <= i <= s.len(),
    ensures
        i + blank_len(s, i) <= s.len(),
        i + hash_len(s, i) <= s.len(),
        i + alnum_len(s, i) <= s.len(),
        forall|k: int| i <= k < i + hash_len(s, i) ==> s[k] == 35u8,
        i + hash_len(s, i) < s.len() ==> s[i + hash_len(s, i)] != 35u8,
        forall|k: int| i <= k < i + blank_len(s, i) ==> (s[k] == 32u8 || s[k] == 9u8),
        forall|k: int| i <= k < i + alnum_len(s, i) ==> is_ascii_alnum(s[k]),
    decreases s.len() - i,
{
    if i < s.len() {
        lemma_runs_bound(s, i + 1);
    }
}

proof fn lemma_fence_from(s: Seq<u8>, q: int)
    requires
        0 <= q,
    ensures
        fence_from(s, q) == -1 || (q <= fence_from(s, q) && fence_at(s, fence_from(s, q))),
    decreases s.len() - q,
{
    if q + 3 <= s.len() && !fence_at(s, q) {
        lemma_fence_from(s, q + 1);
    }
}

/// Every scan takes at least one byte and stays within the input.
pub proof fn lemma_scan_len(s: Seq<u8>, i: int)
    requires
        0 <= i < s.len(),
    ensures
        0 < scan_len(scan_at(s, i)) <= s.len() - i,
{
    lemma_text_len_bound(s, i);
    lemma_runs_bound(s, i);
    if i + 3 <= s.len() {
        lemma_runs_bound(s, i + 3);
        let p = i + 3 + alnum_len(s, i + 3);
        if p < s.len() {
            lemma_fence_from(s, p + 1);
        }
    }
    if s[i] == 35u8 {
        lemma_runs_bound(s, i + 1);
    }
    if s[i] != 10u8 && s[i] != 32u8 && s[i] != 9u8 && s[i] != 35u8 && s[i] != 96u8 {
        assert(text_len(s, i) > 0);
    }
}


fn exec_text_len(s: &[u8], i: usize) -> (r: usize)
    requires
        i <= s@.len(),
    ensures
        r == text_len(s@, i as int),
{
    proof { lemma_text_len_bound(s@, i as int); }
    let mut j = i;
    while j < s.len()
        invariant
            i <= j <= s@.len(),
            i + text_len(s@, i as int) == j + text_len(s@, j as int),
        ensures
            i + text_len(s@, i as int) == j,
        decreases s@.len() - j,
    {
        let b = s[j];
        if b == 10u8 || b == 32u8 || b == 9u8 {
            break;
        } else if b == 35u8 {
            if j + 1 < s.len() && s[j + 1] != 32u8 {
                j = j + 2;
            } else {
                break;
            }
        } else if b == 96u8 {
            if j + 1 < s.len() && s[j + 1] != 96u8 {
                j = j + 2;
            } else {
                break;
            }
        } else {
            j = j + 1;
        }
    }
    j - i
}

fn exec_blank_len(s: &[u8], i: usize) -> (r: usize)
    requires
        i <= s@.len(),
    ensures
        r == blank_len(s@, i as int),
{
    proof { lemma_runs_bound(s@, i as int); }
    let mut j = i;
    while j < s.len() && (s[j] == 32u8 || s[j] == 9u8)
        invariant
            i <= j <= s@.len(),
            i + blank_len(s@, i as int) == j + blank_len(s@, j as int),
        decreases s@.len() - j,
    {
        j = j + 1;
    }
    j - i
}

fn exec_hash_len(s: &[u8], i: usize) -> (r: usize)
    requires
        i <= s@.len(),
    ensures
        r == hash_len(s@, i as int),
{
    proof { lemma_runs_bound(s@, i as int); }
    let mut j = i;
    while j < s.len() && s[j] == 35u8
        invariant
            i <= j <= s@.len(),
            i + hash_len(s@, i as int) == j + hash_len(s@, j as int),
        decreases s@.len() - j,
    {
        j = j + 1;
    }
    j - i
}

fn exec_is_ascii_alnum(b: u8) -> (r: bool)
    ensures
        r == is_ascii_alnum(b),
{
    (48u8 <= b && b <= 57u8) || (65u8 <= b && b <= 90u8) || (97u8 <= b && b <= 122u8)
}

fn exec_alnum_len(s: &[u8], i: usize) -> (r: usize)
    requires
        i <= s@.len(),
    ensures
        r == alnum_len(s@, i as int),
{
    proof { lemma_runs_bound(s@, i as int); }
    let mut j = i;
    while j < s.len() && exec_is_ascii_alnum(s[j])
        invariant
            i <= j <= s@.len(),
            i + alnum_len(s@, i as int) == j + alnum_len(s@, j as int),
        decreases s@.len() - j,
    {
        j = j + 1;
    }
    j - i
}

fn exec_fence_at(s: &[u8], q: usize) -> (r: bool)
    ensures
        r == fence_at(s@, q as int),
{
    q < s.len() && s.len() - q >= 3 && s[q] == 96u8 && s[q + 1] == 96u8 && s[q + 2] == 96u8
}

fn exec_fence_from(s: &[u8], q: usize) -> (r: Option<usize>)
    ensures
        match r {
            Some(p) => fence_from(s@, q as int) == p,
            None => fence_from(s@, q as int) == -1,
        },
{
    let mut j = q;
    while j < s.len() && s.len() - j >= 3
        invariant
            q <= j,
            fence_from(s@, q as int) == fence_from(s@, j as int),
        decreases s@.len() - j,
    {
        if exec_fence_at(s, j) {
            return Some(j);
        }
        j = j + 1;
    }
    None
}

fn exec_heading(k: usize) -> (t: Token)
    ensures
        t == heading(k as int),
{
    if k == 1 {
        Token::Heading1
    } else if k == 2 {
        Token::Heading2
    } else if k == 3 {
        Token::Heading3
    } else if k == 4 {
        Token::Heading4
    } else if k == 5 {
        Token::Heading5
    } else {
        Token::Heading6
    }
}

fn exec_is_error_word(s: &[u8], i: usize) -> (r: bool)
    requires
        i + 7 <= s@.len(),
    ensures
        r == (s@.subrange(i as int, i + 7) == error_word()),
{
    let r = s[i] == 60u8 && s[i + 1] == 101u8 && s[i + 2] == 114u8 && s[i + 3] == 114u8
        && s[i + 4] == 111u8 && s[i + 5] == 114u8 && s[i + 6] == 62u8;
    if r {
        assert(s@.subrange(i as int, i + 7) =~= error_word());
    } else {
        assert(s@.subrange(i as int, i + 7) != error_word()) by {
            if s@.subrange(i as int, i + 7) == error_word() {
                assert(s@.subrange(i as int, i + 7)[0] == error_word()[0]);
                assert(s@.subrange(i as int, i + 7)[1] == error_word()[1]);
                assert(s@.subrange(i as int, i + 7)[2] == error_word()[2]);
                assert(s@.subrange(i as int, i + 7)[3] == error_word()[3]);
                assert(s@.subrange(i as int, i + 7)[4] == error_word()[4]);
                assert(s@.subrange(i as int, i + 7)[5] == error_word()[5]);
                assert(s@.subrange(i as int, i + 7)[6] == error_word()[6]);
            }
        }
    }
    r
}

/// What is taken at `i`: `Ok` with the token, or `Err` where nothing
/// matches; with the length in bytes.
fn scan(s: &[u8], i: usize) -> (r: (Result<Token, LexerError>, usize))
    requires
        i < s@.len(),
    ensures
        match r.0 {
            Ok(t) => scan_at(s@, i as int) == Scan::Tok(t, r.1 as int),
            Err(_) => scan_at(s@, i as int) == Scan::Invalid(r.1 as int),
        },
{
    proof {
        lemma_scan_len(s@, i as int);
        lemma_text_len_bound(s@, i as int);
        lemma_runs_bound(s@, i as int);
    }
    let b = s[i];
    if b == 10u8 {
        (Ok(Token::Newline), 1)
    } else if b == 32u8 || b == 9u8 {
        (Ok(Token::Whitespace), exec_blank_len(s, i))
    } else if b == 35u8 {
        let k = exec_hash_len(s, i);
        if k <= 6 && k < s.len() - i && s[i + k] == 32u8 {
            (Ok(exec_heading(k)), k + 1)
        } else {
            let t = exec_text_len(s, i);
            if t > 0 {
                (Ok(Token::Text), t)
            } else {
                (Err(LexerError::Invalid), 1)
            }
        }
    } else if b == 96u8 && exec_fence_at(s, i) {
        proof { lemma_runs_bound(s@, i + 3); }
        let p = i + 3 + exec_alnum_len(s, i + 3);
        if p < s.len() && s[p] == 10u8 {
            match exec_fence_from(s, p + 1) {
                Some(q) => {
                    proof { lemma_fence_from(s@, p + 1); }
                    (Ok(Token::CodeBlock), q + 3 - i)
                },
                None => (Err(LexerError::Invalid), s.len() - i),
            }
        } else {
            (Err(LexerError::Invalid), p - i)
        }
    } else if b == 96u8 {
        let t = exec_text_len(s, i);
        if t > 0 {
            (Ok(Token::Text), t)
        } else if i + 1 < s.len() {
            (Err(LexerError::Invalid), 2)
        } else {
            (Err(LexerError::Invalid), 1)
        }
    } else {
        let t = exec_text_len(s, i);
        if t == 7 && exec_is_error_word(s, i) {
            (Ok(Token::Error), 7)
        } else {
            (Ok(Token::Text), t)
        }
    }
}


/// The scans of `s` from byte `i` on, each with the byte where it starts.
pub open spec fn scans_from(s: Seq<u8>, i: int) -> Seq<(Scan, int)>
    decreases s.len() - i,
{
    if i < 0 || i >= s.len() {
        seq![]
    } else {
        let x = scan_at(s, i);
        let n = scan_len(x);
        if 0 < n <= s.len() - i {
            seq![(x, i)] + scans_from(s, i + n)
        } else {
            seq![(x, i)]
        }
    }
}

/// The token a scan yields: its token, or `Error` for an invalid stretch.
pub open spec fn scan_token(x: Scan) -> Token {
    match x {
        Scan::Tok(t, _) => t,
        Scan::Invalid(_) => Token::Error,
    }
}

/// Whether `d` is the "invalid token" diagnostic for the bytes `start..end`.
pub open spec fn is_invalid_token_diag(d: Diagnostic, start: int, end: int) -> bool {
    &&& d.severity == Severity::Error
    &&& d.code is None
    &&& d.message@ == "invalid token"@
    &&& d.labels@.len() == 1
    &&& d.labels@[0].style == LabelStyle::Primary
    &&& d.labels@[0].range.start == start
    &&& d.labels@[0].range.end == end
    &&& d.labels@[0].message@ == Seq::<char>::empty()
    &&& d.notes@.len() == 0
}

/// The invalid stretches among the scans, as `(start, end)`.
pub open spec fn invalid_spans(xs: Seq<(Scan, int)>) -> Seq<(int, int)>
    decreases xs.len(),
{
    if xs.len() == 0 {
        seq![]
    } else {
        let rest = invalid_spans(xs.drop_last());
        let (x, st) = xs.last();
        if x is Invalid {
            rest.push((st, st + scan_len(x)))
        } else {
            rest
        }
    }
}

/// Whether `tokens` and `spans` are the tokenization of the bytes `s`: one
/// token and byte span per scan in order, then `EOF` with the empty span at
/// the end.
pub open spec fn tokenized(s: Seq<u8>, tokens: Seq<Token>, spans: Seq<Span>) -> bool {
    let xs = scans_from(s, 0);
    &&& tokens.len() == xs.len() + 1
    &&& spans.len() == xs.len() + 1
    &&& forall|k: int|
        0 <= k < xs.len() ==> {
            &&& #[trigger] tokens[k] == scan_token(xs[k].0)
            &&& spans[k].start == xs[k].1
            &&& spans[k].end == xs[k].1 + scan_len(xs[k].0)
        }
    &&& tokens[xs.len() as int] == Token::EOF
    &&& spans[xs.len() as int].start == s.len()
    &&& spans[xs.len() as int].end == s.len()
}

proof fn lemma_scans_from_step(s: Seq<u8>, i: int)
    requires
        0 <= i < s.len(),
    ensures
        scans_from(s, i) == seq![(scan_at(s, i), i)] + scans_from(s, i + scan_len(scan_at(s, i))),
{
    lemma_scan_len(s, i);
}

/// Splits Markdown `source` into tokens with their byte spans, ending with
/// `EOF`; every stretch that no token matches becomes an `Error` token and
/// adds an "invalid token" diagnostic to `diags`.
pub fn tokenize(source: &str, diags: &mut Vec<Diagnostic>) -> (r: (Vec<Token>, Vec<Span>))
    ensures
        tokenized(source.spec_bytes(), r.0@, r.1@),
        final(diags)@.len() == old(diags)@.len() + invalid_spans(scans_from(source.spec_bytes(), 0)).len(),
        final(diags)@.subrange(0, old(diags)@.len() as int) == old(diags)@,
        forall|m: int|
            0 <= m < invalid_spans(scans_from(source.spec_bytes(), 0)).len() ==> is_invalid_token_diag(
                #[trigger] final(diags)@[old(diags)@.len() + m],
                invalid_spans(scans_from(source.spec_bytes(), 0))[m].0,
                invalid_spans(scans_from(source.spec_bytes(), 0))[m].1,
            ),
{
    let bytes = source.as_bytes();
    let ghost s = bytes@;
    let ghost all = scans_from(s, 0);
    let ghost old_diags = diags@;
    let mut tokens: Vec<Token> = Vec::new();
    let mut spans: Vec<Span> = Vec::new();
    let ghost mut done: Seq<(Scan, int)> = seq![];
    let mut i: usize = 0;
    while i < bytes.len()
        invariant
            s == bytes@,
            s == source.spec_bytes(),
            all == scans_from(s, 0),
            i <= s.len(),
            all == done + scans_from(s, i as int),
            tokens@.len() == done.len(),
            spans@.len() == done.len(),
            forall|k: int|
                0 <= k < done.len() ==> {
                    &&& #[trigger] tokens@[k] == scan_token(done[k].0)
                    &&& spans@[k].start == done[k].1
                    &&& spans@[k].end == done[k].1 + scan_len(done[k].0)
                },
            diags@.len() == old_diags.len() + invalid_spans(done).len(),
            diags@.subrange(0, old_diags.len() as int) == old_diags,
            forall|m: int|
                0 <= m < invalid_spans(done).len() ==> is_invalid_token_diag(
                    #[trigger] diags@[old_diags.len() + m],
                    invalid_spans(done)[m].0,
                    invalid_spans(done)[m].1,
                ),
        decreases s.len() - i,
    {
        proof { lemma_scans_from_step(s, i as int); lemma_scan_len(s, i as int); }
        let (res, n) = scan(bytes, i);
        let ghost x = scan_at(s, i as int);
        let ghost d0 = diags@;
        let ghost inv0 = invalid_spans(done);
        match res {
            Ok(t) => {
                tokens.push(t);
            },
            Err(e) => {
                let diag = e.into_diagnostic(i..i + n);
                diags.push(diag);
                tokens.push(Token::Error);
            },
        }
        spans.push(i..i + n);
        proof {
            let nd = done.push((x, i as int));
            assert(nd.drop_last() =~= done);
            assert(all =~= nd + scans_from(s, i + n));
            if x is Invalid {
                assert(invalid_spans(nd) == inv0.push((i as int, i + n)));
                assert forall|m: int| 0 <= m < invalid_spans(nd).len() implies is_invalid_token_diag(
                    #[trigger] diags@[old_diags.len() + m],
                    invalid_spans(nd)[m].0,
                    invalid_spans(nd)[m].1,
                ) by {
                    if m < inv0.len() {
                        assert(diags@[old_diags.len() + m] == d0[old_diags.len() + m]);
                    }
                }
                assert(diags@.subrange(0, old_diags.len() as int) =~= d0.subrange(0, old_diags.len() as int));
            } else {
                assert(invalid_spans(nd) == inv0);
            }
            done = nd;
        }
        i = i + n;
    }
    let ghost xs = done;
    assert(scans_from(s, i as int) =~= Seq::<(Scan, int)>::empty());
    assert(done =~= all);
    tokens.push(Token::EOF);
    spans.push(source.len()..source.len());
    (tokens, spans)
}


proof fn lemma_scans_chain(s: Seq<u8>, i: int)
    requires
        0 <= i <= s.len(),
    ensures
        ({
            let xs = scans_from(s, i);
            &&& xs.len() == 0 <==> i == s.len()
            &&& xs.len() > 0 ==> xs[0].1 == i
            &&& forall|k: int| 0 <= k < xs.len() ==> 0 < #[trigger] scan_len(xs[k].0)
            &&& forall|k: int|
                0 <= k < xs.len() - 1 ==> #[trigger] xs[k].1 + scan_len(xs[k].0) == xs[k + 1].1
            &&& xs.len() > 0 ==> xs[xs.len() - 1].1 + scan_len(xs[xs.len() - 1].0) == s.len()
            &&& forall|k: int| 0 <= k < xs.len() ==> i <= #[trigger] xs[k].1 && xs[k].1 + scan_len(xs[k].0) <= s.len()
        }),
    decreases s.len() - i,
{
    if i < s.len() {
        lemma_scan_len(s, i);
        let x = scan_at(s, i);
        let n = scan_len(x);
        lemma_scans_chain(s, i + n);
        let xs = scans_from(s, i);
        let rest = scans_from(s, i + n);
        assert(xs == seq![(x, i)] + rest);
        assert forall|k: int| 0 <= k < xs.len() implies 0 < #[trigger] scan_len(xs[k].0) by {
            if k > 0 {
                assert(xs[k] == rest[k - 1]);
            }
        }
        assert forall|k: int| 0 <= k < xs.len() - 1 implies #[trigger] xs[k].1 + scan_len(xs[k].0) == xs[k + 1].1 by {
            assert(xs[k + 1] == rest[k]);
            if k > 0 {
                assert(xs[k] == rest[k - 1]);
            }
        }
        if rest.len() > 0 {
            assert(xs[xs.len() - 1] == rest[rest.len() - 1]);
        }
        assert forall|k: int| 0 <= k < xs.len() implies i <= #[trigger] xs[k].1 && xs[k].1 + scan_len(xs[k].0) <= s.len() by {
            if k > 0 {
                assert(xs[k] == rest[k - 1]);
            }
        }
    }
}

proof fn lemma_scans_are_scans(s: Seq<u8>, i: int)
    requires
        0 <= i <= s.len(),
    ensures
        forall|k: int|
            0 <= k < scans_from(s, i).len() ==> (#[trigger] scans_from(s, i)[k]).0 == scan_at(s, scans_from(s, i)[k].1),
    decreases s.len() - i,
{
    if i < s.len() {
        lemma_scan_len(s, i);
        let n = scan_len(scan_at(s, i));
        lemma_scans_are_scans(s, i + n);
        let xs = scans_from(s, i);
        let rest = scans_from(s, i + n);
        assert forall|k: int| 0 <= k < xs.len() implies (#[trigger] xs[k]).0 == scan_at(s, xs[k].1) by {
            if k > 0 {
                assert(xs[k] == rest[k - 1]);
            }
        }
    }
}

/// Whether `k` hashes start at byte `i`, followed by a space.
pub open spec fn hashes_then_space(s: Seq<u8>, i: int, k: int) -> bool {
    &&& 0 <= i
    &&& 0 <= k
    &&& i + k < s.len()
    &&& s[i + k] == 32u8
    &&& forall|m: int| i <= m < i + k ==> s[m] == 35u8
}

proof fn lemma_hash_len_exact(s: Seq<u8>, i: int, k: int)
    requires
        hashes_then_space(s, i, k),
    ensures
        hash_len(s, i) == k,
    decreases k,
{
    if k > 0 {
        assert(s[i] == 35u8);
        lemma_hash_len_exact(s, i + 1, k - 1);
    }
}

/// A heading marker is the heading of its level: a token that starts with
/// `k` hashes and a space (`k` from 1 to 6) is `Heading1` for `# `,
/// `Heading2` for `## `, ... `Heading6` for `###### `, and spans exactly
/// those `k + 1` bytes.
pub proof fn law_heading_levels(s: Seq<u8>, tokens: Seq<Token>, spans: Seq<Span>, j: int)
    requires
        tokenized(s, tokens, spans),
        0 <= j < tokens.len() - 1,
    ensures
        hashes_then_space(s, spans[j].start as int, 1) ==> tokens[j] == Token::Heading1 && spans[j].end == spans[j].start + 2,
        hashes_then_space(s, spans[j].start as int, 2) ==> tokens[j] == Token::Heading2 && spans[j].end == spans[j].start + 3,
        hashes_then_space(s, spans[j].start as int, 3) ==> tokens[j] == Token::Heading3 && spans[j].end == spans[j].start + 4,
        hashes_then_space(s, spans[j].start as int, 4) ==> tokens[j] == Token::Heading4 && spans[j].end == spans[j].start + 5,
        hashes_then_space(s, spans[j].start as int, 5) ==> tokens[j] == Token::Heading5 && spans[j].end == spans[j].start + 6,
        hashes_then_space(s, spans[j].start as int, 6) ==> tokens[j] == Token::Heading6 && spans[j].end == spans[j].start + 7,
{
    let xs = scans_from(s, 0);
    lemma_scans_chain(s, 0);
    lemma_scans_are_scans(s, 0);
    assert(tokens[j] == scan_token(xs[j].0));
    let i = xs[j].1;
    assert(xs[j].0 == scan_at(s, i));
    assert(0 <= i < s.len());
    assert forall|k: int| 1 <= k <= 6 && hashes_then_space(s, i, k) implies scan_at(s, i) == Scan::Tok(heading(k), k + 1) by {
        lemma_hash_len_exact(s, i, k);
        assert(s[i] == 35u8);
    }
    assert(hashes_then_space(s, i, 1) ==> scan_at(s, i) == Scan::Tok(heading(1), 2));
    assert(hashes_then_space(s, i, 2) ==> scan_at(s, i) == Scan::Tok(heading(2), 3));
    assert(hashes_then_space(s, i, 3) ==> scan_at(s, i) == Scan::Tok(heading(3), 4));
    assert(hashes_then_space(s, i, 4) ==> scan_at(s, i) == Scan::Tok(heading(4), 5));
    assert(hashes_then_space(s, i, 5) ==> scan_at(s, i) == Scan::Tok(heading(5), 6));
    assert(hashes_then_space(s, i, 6) ==> scan_at(s, i) == Scan::Tok(heading(6), 7));
}


/// The spans of a tokenization tile the source: they start at byte 0, each
/// token but `EOF` covers at least one byte, each span ends where the next
/// one starts, and `EOF` has the empty span at the end.
pub proof fn law_tokenize_spans_tile(s: Seq<u8>, tokens: Seq<Token>, spans: Seq<Span>)
    requires
        tokenized(s, tokens, spans),
    ensures
        spans.len() == tokens.len(),
        spans[0].start == 0,
        forall|k: int| 0 <= k < spans.len() - 1 ==> #[trigger] spans[k].start < spans[k].end,
        forall|k: int| 0 <= k < spans.len() - 1 ==> #[trigger] spans[k].end == spans[k + 1].start,
        tokens[tokens.len() - 1] == Token::EOF,
        spans[spans.len() - 1].start == s.len(),
        spans[spans.len() - 1].end == s.len(),
        forall|k: int| 0 <= k < spans.len() ==> (#[trigger] spans[k]).start <= spans[k].end <= s.len(),
{
    lemma_scans_chain(s, 0);
    let xs = scans_from(s, 0);
    assert forall|k: int| 0 <= k < spans.len() - 1 implies #[trigger] spans[k].start < spans[k].end by {
        assert(tokens[k] == scan_token(xs[k].0));
        assert(0 < scan_len(xs[k].0));
    }
    assert forall|k: int| 0 <= k < spans.len() - 1 implies #[trigger] spans[k].end == spans[k + 1].start by {
        assert(tokens[k] == scan_token(xs[k].0));
        if k + 1 < xs.len() {
            assert(tokens[k + 1] == scan_token(xs[k + 1].0));
            assert(xs[k].1 + scan_len(xs[k].0) == xs[k + 1].1);
        }
    }
    if xs.len() > 0 {
        assert(tokens[0] == scan_token(xs[0].0));
    }
    assert forall|k: int| 0 <= k < spans.len() implies (#[trigger] spans[k]).start <= spans[k].end <= s.len() by {
        if k < xs.len() {
            assert(tokens[k] == scan_token(xs[k].0));
        }
    }
}

} // verus!
