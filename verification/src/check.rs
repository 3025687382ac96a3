//! The position arithmetic of `bean-check`: from a byte offset of the
//! checked text to its line and column.
use vstd::prelude::*;
use vstd::utf8::{encode_utf8, encode_scalar, has_width_1_encoding, has_width_2_encoding, has_width_3_encoding, has_width_4_encoding};
use vstd::string::StringSliceAdditionalSpecFns;
use crate::text::str_chars;

verus! {

broadcast use vstd::utf8::char_is_scalar;

/// The byte offset of character `k` of `cs` in its UTF-8 encoding.
pub open spec fn byte_pos(cs: Seq<char>, k: int) -> int {
    encode_utf8(cs.take(k)).len() as int
}

/// The first character index from `k` on whose byte offset is `offset`, or
/// the number of characters if there is none.
pub open spec fn stop_at(cs: Seq<char>, offset: int, k: int) -> int
    decreases cs.len() - k,
{
    if k < 0 || k >= cs.len() {
        cs.len() as int
    } else if byte_pos(cs, k) == offset {
        k
    } else {
        stop_at(cs, offset, k + 1)
    }
}

/// The line and column (both from 1) after the first `n` characters: a
/// newline starts the next line at column 1, any other character moves one
/// column on.
pub open spec fn line_col(cs: Seq<char>, n: int) -> (int, int)
    decreases n,
{
    if n <= 0 {
        (1, 1)
    } else {
        let (l, c) = line_col(cs, n - 1);
        if cs[n - 1] == '\n' {
            (l + 1, 1)
        } else {
            (l, c + 1)
        }
    }
}

proof fn lemma_encode_concat(a: Seq<char>, b: Seq<char>)
    ensures
        encode_utf8(a + b) == encode_utf8(a) + encode_utf8(b),
    decreases a.len(),
{
    if a.len() == 0 {
        assert(a + b =~= b);
        assert(encode_utf8(a) =~= Seq::<u8>::empty());
        assert(encode_utf8(a) + encode_utf8(b) =~= encode_utf8(b));
    } else {
        assert((a + b).drop_first() =~= a.drop_first() + b);
        assert((a + b)[0] == a[0]);
        lemma_encode_concat(a.drop_first(), b);
        assert(encode_utf8(a + b) =~= encode_utf8(a) + encode_utf8(b));
    }
}

proof fn lemma_encode_single(c: char)
    ensures
        encode_utf8(seq![c]) == encode_scalar(c as u32),
{
    reveal_with_fuel(encode_utf8, 2);
    assert(seq![c].drop_first() =~= Seq::<char>::empty());
    assert(encode_scalar(c as u32) + Seq::<u8>::empty() =~= encode_scalar(c as u32));
}

/// The length of the UTF-8 encoding of a character.
pub open spec fn utf8_width(c: char) -> int {
    if (c as u32) <= 0x7F {
        1
    } else if (c as u32) <= 0x7FF {
        2
    } else if (c as u32) <= 0xFFFF {
        3
    } else {
        4
    }
}

proof fn lemma_scalar_width(c: char)
    ensures
        encode_scalar(c as u32).len() == utf8_width(c),
{
    let v = c as u32;
    assert(has_width_1_encoding(v) || has_width_2_encoding(v) || has_width_3_encoding(v) || has_width_4_encoding(v));
}

proof fn lemma_byte_pos_step(cs: Seq<char>, k: int)
    requires
        0 <= k < cs.len(),
    ensures
        byte_pos(cs, k + 1) == byte_pos(cs, k) + utf8_width(cs[k]),
{
    assert(cs.take(k + 1) =~= cs.take(k) + seq![cs[k]]);
    lemma_encode_concat(cs.take(k), seq![cs[k]]);
    lemma_encode_single(cs[k]);
    lemma_scalar_width(cs[k]);
}

proof fn lemma_byte_pos_bound(cs: Seq<char>, k: int)
    requires
        0 <= k <= cs.len(),
    ensures
        k <= byte_pos(cs, k) <= encode_utf8(cs).len(),
        cs.len() <= encode_utf8(cs).len(),
    decreases k,
{
    assert(cs =~= cs.take(k) + cs.skip(k));
    lemma_encode_concat(cs.take(k), cs.skip(k));
    lemma_byte_pos_len(cs.skip(k));
    if k > 0 {
        lemma_byte_pos_bound(cs, k - 1);
        lemma_byte_pos_step(cs, k - 1);
        lemma_scalar_width(cs[k - 1]);
    } else {
        assert(cs.take(0) =~= Seq::<char>::empty());
        assert(encode_utf8(Seq::<char>::empty()) =~= Seq::<u8>::empty());
    }
}

proof fn lemma_byte_pos_len(cs: Seq<char>)
    ensures
        cs.len() <= encode_utf8(cs).len(),
    decreases cs.len(),
{
    if cs.len() > 0 {
        lemma_byte_pos_len(cs.drop_first());
        lemma_scalar_width(cs[0]);
    }
}

fn char_width(c: char) -> (w: usize)
    ensures
        w == utf8_width(c),
{
    let v = c as u32;
    if v <= 0x7F {
        1
    } else if v <= 0x7FF {
        2
    } else if v <= 0xFFFF {
        3
    } else {
        4
    }
}

/// The line and column (both from 1, the column counted in characters) of
/// the character that starts at byte `byte_offset` of `source`; where no
/// character starts there, the position after the last character.
pub fn get_line_and_col(source: &str, byte_offset: usize) -> (r: (usize, usize))
    requires
        source.spec_bytes().len() < usize::MAX,
    ensures
        r.0 == line_col(source@, stop_at(source@, byte_offset as int, 0)).0,
        r.1 == line_col(source@, stop_at(source@, byte_offset as int, 0)).1,
{
    let cs = str_chars(source);
    proof {
        lemma_byte_pos_bound(cs@, cs@.len() as int);
        assert(cs@.take(0) =~= Seq::<char>::empty());
        assert(encode_utf8(Seq::<char>::empty()) =~= Seq::<u8>::empty());
        assert(cs@.take(cs@.len() as int) =~= cs@);
    }
    let mut line: usize = 1;
    let mut col: usize = 1;
    let mut byte_idx: usize = 0;
    let mut k: usize = 0;
    while k < cs.len()
        invariant
            cs@ == source@,
            encode_utf8(cs@).len() == source.spec_bytes().len(),
            cs@.len() <= encode_utf8(cs@).len() < usize::MAX,
            k <= cs@.len(),
            byte_idx == byte_pos(cs@, k as int),
            stop_at(cs@, byte_offset as int, 0) == stop_at(cs@, byte_offset as int, k as int),
            line as int == line_col(cs@, k as int).0,
            col as int == line_col(cs@, k as int).1,
            1 <= line <= k + 1,
            1 <= col <= k + 1,
        ensures
            k <= cs@.len(),
            k as int == stop_at(cs@, byte_offset as int, 0),
            line as int == line_col(cs@, k as int).0,
            col as int == line_col(cs@, k as int).1,
        decreases cs@.len() - k,
    {
        if byte_idx == byte_offset {
            break;
        }
        let c = cs[k];
        if c == '\n' {
            line = line + 1;
            col = 1;
        } else {
            col = col + 1;
        }
        proof {
            lemma_byte_pos_step(cs@, k as int);
            lemma_byte_pos_bound(cs@, k + 1);
        }
        byte_idx = byte_idx + char_width(c);
        k = k + 1;
    }
    (line, col)
}

} // verus!
