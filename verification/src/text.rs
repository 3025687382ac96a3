//! Character and string helpers shared by the lexers and the reports.
use vstd::prelude::*;

verus! {

/// Whether `char::is_alphanumeric` holds of a character (Unicode `Alphabetic`
/// or `Numeric`); the tables behind it are std's.
pub uninterp spec fn char_is_alphanumeric(c: char) -> bool;

/// Whether `char::is_whitespace` holds of a character (Unicode `White_Space`).
pub uninterp spec fn char_is_whitespace(c: char) -> bool;

/// Calls `char::is_alphanumeric`; its result is the named property of `c`.
#[verifier::external_body]
pub(crate) fn is_alphanumeric(c: char) -> (r: bool)
    ensures
        r == char_is_alphanumeric(c),
{
    c.is_alphanumeric()
}

/// Calls `char::is_whitespace`; its result is the named property of `c`.
#[verifier::external_body]
pub(crate) fn is_whitespace(c: char) -> (r: bool)
    ensures
        r == char_is_whitespace(c),
{
    c.is_whitespace()
}

/// Collects `str::chars` into a vector: the characters of `s`, in order.
#[verifier::external_body]
pub(crate) fn str_chars(s: &str) -> (r: Vec<char>)
    ensures
        r@ == s@,
{
    s.chars().collect()
}

/// Collects characters into a `String` (`FromIterator<char>`): the string
/// made of exactly these characters.
#[verifier::external_body]
pub(crate) fn string_from_chars(v: &Vec<char>) -> (r: String)
    ensures
        r@ == v@,
{
    v.iter().collect()
}

/// Calls `String::push`: the character is appended.
#[verifier::external_body]
pub(crate) fn string_push(s: &mut String, c: char)
    ensures
        final(s)@ == old(s)@.push(c),
{
    s.push(c)
}

/// Whether `s` ends with `suffix`.
pub open spec fn ends_with(s: Seq<char>, suffix: Seq<char>) -> bool {
    suffix.len() <= s.len() && s.subrange(s.len() - suffix.len(), s.len() as int) == suffix
}

/// Whether `s` ends with `suffix` (`str::ends_with` on characters).
pub fn str_ends_with(s: &str, suffix: &str) -> (r: bool)
    ensures
        r == ends_with(s@, suffix@),
{
    let a = str_chars(s);
    let b = str_chars(suffix);
    if b.len() > a.len() {
        return false;
    }
    let off = a.len() - b.len();
    let mut i: usize = 0;
    while i < b.len()
        invariant
            a@ == s@,
            b@ == suffix@,
            off == a.len() - b.len(),
            i <= b.len(),
            forall|k: int| 0 <= k < i ==> a@[off + k] == b@[k],
        decreases b.len() - i,
    {
        if a[off + i] != b[i] {
            assert(s@.subrange(s@.len() - suffix@.len(), s@.len() as int)[i as int] != suffix@[i as int]);
            return false;
        }
        i = i + 1;
    }
    assert(s@.subrange(s@.len() - suffix@.len(), s@.len() as int) =~= suffix@);
    true
}


/// The first position at or after `i` that is not whitespace (or the end).
pub open spec fn ws_lead(s: Seq<char>, i: int) -> int
    decreases s.len() - i,
{
    if 0 <= i < s.len() && char_is_whitespace(s[i]) {
        ws_lead(s, i + 1)
    } else {
        i
    }
}

/// Going back from `j`, the position after the last character that is not
/// whitespace, but not before `lo`.
pub open spec fn ws_trail(s: Seq<char>, j: int, lo: int) -> int
    decreases j - lo,
{
    if lo < j && 0 < j <= s.len() && char_is_whitespace(s[j - 1]) {
        ws_trail(s, j - 1, lo)
    } else {
        j
    }
}

/// `s` without its leading and trailing whitespace (`str::trim`).
pub open spec fn trim_chars(s: Seq<char>) -> Seq<char> {
    let a = ws_lead(s, 0);
    s.subrange(a, ws_trail(s, s.len() as int, a))
}

/// Skipping whitespace from `i` stays within the text, and going back from
/// `j` stays between `lo` and `j`.
pub proof fn lemma_ws_bounds(s: Seq<char>, i: int, j: int, lo: int)
    requires
        0 <= i <= s.len(),
        0 <= lo <= j <= s.len(),
    ensures
        i <= ws_lead(s, i) <= s.len(),
        lo <= ws_trail(s, j, lo) <= j,
    decreases s.len() - i + j - lo,
{
    if i < s.len() && char_is_whitespace(s[i]) {
        lemma_ws_bounds(s, i + 1, j, lo);
    } else if lo < j && char_is_whitespace(s[j - 1]) {
        lemma_ws_bounds(s, i, j - 1, lo);
    }
}

/// `s` without its leading and trailing whitespace (`str::trim`).
pub fn trim_string(s: &str) -> (r: String)
    ensures
        r@ == trim_chars(s@),
{
    let cs = str_chars(s);
    let mut a: usize = 0;
    while a < cs.len() && is_whitespace(cs[a])
        invariant
            cs@ == s@,
            a <= cs@.len(),
            ws_lead(cs@, 0) == ws_lead(cs@, a as int),
        decreases cs@.len() - a,
    {
        a = a + 1;
    }
    let mut b: usize = cs.len();
    while b > a && is_whitespace(cs[b - 1])
        invariant
            cs@ == s@,
            a <= b <= cs@.len(),
            ws_lead(cs@, 0) == a,
            ws_trail(cs@, cs@.len() as int, a as int) == ws_trail(cs@, b as int, a as int),
        decreases b - a,
    {
        b = b - 1;
    }
    let mut out: Vec<char> = Vec::new();
    let mut k: usize = a;
    while k < b
        invariant
            cs@ == s@,
            a <= k <= b <= cs@.len(),
            out@ == cs@.subrange(a as int, k as int),
        decreases b - k,
    {
        out.push(cs[k]);
        assert(cs@.subrange(a as int, k + 1) =~= cs@.subrange(a as int, k as int).push(cs@[k as int]));
        k = k + 1;
    }
    string_from_chars(&out)
}

} // verus!
