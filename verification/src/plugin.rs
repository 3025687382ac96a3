//! Token trees of a source text and the Markdown plugin that comments out
//! everything outside the ```` ```beancount ```` blocks of a literate ledger.
use vstd::prelude::*;
use vstd::string::StringExecFns;
use crate::text::{string_push, str_chars, is_alphanumeric, is_whitespace, char_is_alphanumeric, char_is_whitespace, ends_with, str_ends_with};

verus! {

/// One token tree: a delimited group, an identifier, a single punctuation
/// character (newlines included) or a literal run of text.
#[derive(Debug, PartialEq)]
pub enum TokenTree {
    Group(Group),
    Ident(Ident),
    Punct(Punct),
    Literal(Literal),
}

/// A sequence of token trees.
#[derive(Debug, PartialEq)]
pub struct TokenStream {
    pub trees: Vec<TokenTree>,
}

/// A delimited group of token trees.
#[derive(Debug, PartialEq)]
pub struct Group {
    pub delimiter: Delimiter,
    pub stream: TokenStream,
}

/// The delimiter around a group; `NoDelimiter` renders no delimiter at all.
#[derive(Debug, Clone, Copy, PartialEq)]
pub enum Delimiter {
    Parenthesis,
    Brace,
    Bracket,
    NoDelimiter,
}

/// An identifier: a run of alphanumeric characters and underscores.
#[derive(Debug, Clone, PartialEq)]
pub struct Ident {
    pub text: String,
}

/// A single punctuation character.
#[derive(Debug, Clone, PartialEq)]
pub struct Punct {
    pub ch: char,
}

/// A literal run of text (the lexer makes one of each run of blanks).
#[derive(Debug, Clone, PartialEq)]
pub struct Literal {
    pub text: String,
}

/// The opening text of a group with this delimiter.
pub open spec fn open_text(d: Delimiter) -> Seq<char> {
    match d {
        Delimiter::Parenthesis => seq!['('],
        Delimiter::Brace => seq!['{'],
        Delimiter::Bracket => seq!['['],
        Delimiter::NoDelimiter => seq![],
    }
}

/// The closing text of a group with this delimiter.
pub open spec fn close_text(d: Delimiter) -> Seq<char> {
    match d {
        Delimiter::Parenthesis => seq![')'],
        Delimiter::Brace => seq!['}'],
        Delimiter::Bracket => seq![']'],
        Delimiter::NoDelimiter => seq![],
    }
}

/// The text a token tree renders to.
pub open spec fn render_tree(t: TokenTree) -> Seq<char>
    decreases t,
{
    match t {
        TokenTree::Group(g) => open_text(g.delimiter) + render_trees(g.stream.trees@) + close_text(
            g.delimiter,
        ),
        TokenTree::Ident(id) => id.text@,
        TokenTree::Punct(p) => seq![p.ch],
        TokenTree::Literal(l) => l.text@,
    }
}

/// The text a sequence of token trees renders to: the texts one after another.
pub open spec fn render_trees(ts: Seq<TokenTree>) -> Seq<char>
    decreases ts,
{
    if ts.len() == 0 {
        seq![]
    } else {
        render_tree(ts[0]) + render_trees(ts.drop_first())
    }
}

fn push_str_chars(out: &mut String, s: &str)
    ensures
        final(out)@ == old(out)@ + s@,
{
    out.append(s);
}

fn render_delim(out: &mut String, d: Delimiter, opening: bool)
    ensures
        final(out)@ == old(out)@ + (if opening { open_text(d) } else { close_text(d) }),
{
    let c = match d {
        Delimiter::Parenthesis => if opening { '(' } else { ')' },
        Delimiter::Brace => if opening { '{' } else { '}' },
        Delimiter::Bracket => if opening { '[' } else { ']' },
        Delimiter::NoDelimiter => { return; }
    };
    string_push(out, c);
    assert(final(out)@ == old(out)@ + (if opening { open_text(d) } else { close_text(d) }));
}

proof fn lemma_render_trees_push(ts: Seq<TokenTree>, t: TokenTree)
    ensures
        render_trees(ts.push(t)) == render_trees(ts) + render_tree(t),
    decreases ts.len(),
{
    if ts.len() == 0 {
        assert(ts.push(t).drop_first() =~= Seq::<TokenTree>::empty());
        assert(render_trees(Seq::<TokenTree>::empty()) == Seq::<char>::empty());
    } else {
        assert(ts.push(t).drop_first() =~= ts.drop_first().push(t));
        lemma_render_trees_push(ts.drop_first(), t);
        assert(render_trees(ts.push(t)) =~= render_tree(ts[0]) + render_trees(
            ts.drop_first().push(t),
        ));
    }
}

fn render_into(trees: &Vec<TokenTree>, out: &mut String)
    ensures
        final(out)@ == old(out)@ + render_trees(trees@),
    decreases trees@,
{
    let mut i: usize = 0;
    while i < trees.len()
        invariant
            i <= trees.len(),
            out@ == old(out)@ + render_trees(trees@.take(i as int)),
        decreases trees.len() - i,
    {
        proof {
            lemma_render_trees_push(trees@.take(i as int), trees@[i as int]);
            assert(trees@.take(i + 1) =~= trees@.take(i as int).push(trees@[i as int]));
        }
        match &trees[i] {
            TokenTree::Group(g) => {
                assert(decreases_to!(trees@ => trees@[i as int]));
                render_delim(out, g.delimiter, true);
                render_into(&g.stream.trees, out);
                render_delim(out, g.delimiter, false);
            },
            TokenTree::Ident(id) => {
                push_str_chars(out, id.text.as_str());
            },
            TokenTree::Punct(p) => {
                string_push(out, p.ch);
            },
            TokenTree::Literal(l) => {
                push_str_chars(out, l.text.as_str());
            },
        }
        i = i + 1;
    }
    assert(trees@.take(i as int) =~= trees@);
}

impl TokenStream {
    /// A stream of the given trees.
    pub fn new(trees: Vec<TokenTree>) -> (r: Self)
        ensures
            r.trees == trees,
    {
        Self { trees }
    }

    /// The text of the stream: each tree's text in order, a group's inside
    /// its delimiters.
    pub fn to_string(&self) -> (r: String)
        ensures
            r@ == render_trees(self.trees@),
    {
        let mut out = String::new();
        render_into(&self.trees, &mut out);
        out
    }
}


/// A lexeme of the token-stream lexer: what one flat token tree holds.
pub enum Lexeme {
    Word(Seq<char>),
    Symbol(char),
    Blank(Seq<char>),
}

/// Whether a token tree is the flat tree that holds this lexeme.
pub open spec fn tree_is(t: TokenTree, l: Lexeme) -> bool {
    match (t, l) {
        (TokenTree::Ident(id), Lexeme::Word(s)) => id.text@ == s,
        (TokenTree::Punct(p), Lexeme::Symbol(c)) => p.ch == c,
        (TokenTree::Literal(x), Lexeme::Blank(s)) => x.text@ == s,
        _ => false,
    }
}

/// Whether the trees are, one for one, the flat trees of the lexemes.
pub open spec fn trees_are(ts: Seq<TokenTree>, ls: Seq<Lexeme>) -> bool {
    &&& ts.len() == ls.len()
    &&& forall|k: int| 0 <= k < ts.len() ==> #[trigger] tree_is(ts[k], ls[k])
}

/// Appending a tree and the lexeme it holds keeps the trees matching the
/// lexemes.
pub proof fn lemma_trees_are_push(ts: Seq<TokenTree>, ls: Seq<Lexeme>, t: TokenTree, l: Lexeme)
    requires
        trees_are(ts, ls),
        tree_is(t, l),
    ensures
        trees_are(ts.push(t), ls.push(l)),
{
    assert forall|k: int| 0 <= k < ts.push(t).len() implies #[trigger] tree_is(ts.push(t)[k], ls.push(l)[k]) by {
        if k < ts.len() {
            assert(ts.push(t)[k] == ts[k]);
            assert(ls.push(l)[k] == ls[k]);
        }
    }
}

/// A character of an identifier: alphanumeric or `_`.
pub open spec fn is_ident_char(c: char) -> bool {
    char_is_alphanumeric(c) || c == '_'
}

/// A blank: whitespace other than a newline.
pub open spec fn is_blank(c: char) -> bool {
    char_is_whitespace(c) && c != '\n'
}

/// The length of the run of identifier characters that starts at `i`.
pub open spec fn ident_run(cs: Seq<char>, i: int) -> nat
    decreases cs.len() - i,
{
    if 0 <= i < cs.len() && is_ident_char(cs[i]) {
        1 + ident_run(cs, i + 1)
    } else {
        0
    }
}

/// The length of the run of blanks that starts at `i`.
pub open spec fn blank_run(cs: Seq<char>, i: int) -> nat
    decreases cs.len() - i,
{
    if 0 <= i < cs.len() && is_blank(cs[i]) {
        1 + blank_run(cs, i + 1)
    } else {
        0
    }
}

/// The first lexeme of `cs` at position `i` (which must be in range) and
/// the position just after it.
pub open spec fn lexeme_at(cs: Seq<char>, i: int) -> (Lexeme, int) {
    if is_ident_char(cs[i]) {
        (Lexeme::Word(cs.subrange(i, i + ident_run(cs, i))), i + ident_run(cs, i))
    } else if is_blank(cs[i]) {
        (Lexeme::Blank(cs.subrange(i, i + blank_run(cs, i))), i + blank_run(cs, i))
    } else {
        (Lexeme::Symbol(cs[i]), i + 1)
    }
}

/// The lexemes of `cs` from position `i` on: each maximal run of identifier
/// characters is an identifier, a newline is a punctuation, each maximal run
/// of blanks is a literal, and every other character is a punctuation.
pub open spec fn lex_from(cs: Seq<char>, i: int) -> Seq<Lexeme>
    decreases cs.len() - i,
{
    if i < 0 || i >= cs.len() {
        seq![]
    } else {
        let (l, e) = lexeme_at(cs, i);
        if i < e <= cs.len() {
            seq![l] + lex_from(cs, e)
        } else {
            seq![l]
        }
    }
}

/// A run of identifier characters stays within the text, holds only such
/// characters and is maximal.
pub proof fn lemma_ident_run(cs: Seq<char>, i: int)
    requires
        0 <= i <= cs.len(),
    ensures
        i + ident_run(cs, i) <= cs.len(),
        forall|k: int| i <= k < i + ident_run(cs, i) ==> is_ident_char(#[trigger] cs[k]),
        i + ident_run(cs, i) < cs.len() ==> !is_ident_char(cs[i + ident_run(cs, i)]),
    decreases cs.len() - i,
{
    if i < cs.len() && is_ident_char(cs[i]) {
        lemma_ident_run(cs, i + 1);
    }
}

/// A run of blanks stays within the text, holds only blanks and is maximal.
pub proof fn lemma_blank_run(cs: Seq<char>, i: int)
    requires
        0 <= i <= cs.len(),
    ensures
        i + blank_run(cs, i) <= cs.len(),
        forall|k: int| i <= k < i + blank_run(cs, i) ==> is_blank(#[trigger] cs[k]),
        i + blank_run(cs, i) < cs.len() ==> !is_blank(cs[i + blank_run(cs, i)]),
    decreases cs.len() - i,
{
    if i < cs.len() && is_blank(cs[i]) {
        lemma_blank_run(cs, i + 1);
    }
}

/// Splits `input` into flat token trees: runs of alphanumerics and `_` become
/// identifiers, a newline a punctuation, runs of other whitespace literals,
/// and each remaining character a punctuation.
pub fn lex_token_stream(input: &str) -> (r: TokenStream)
    ensures
        trees_are(r.trees@, lex_from(input@, 0)),
{
    let cs = str_chars(input);
    let ghost all = lex_from(cs@, 0);
    let mut trees: Vec<TokenTree> = Vec::new();
    let ghost mut done: Seq<Lexeme> = seq![];
    let mut i: usize = 0;
    while i < cs.len()
        invariant
            cs@ == input@,
            i <= cs.len(),
            all == lex_from(cs@, 0),
            all == done + lex_from(cs@, i as int),
            trees_are(trees@, done),
        decreases cs.len() - i,
    {
        let ch = cs[i];
        let alnum = is_alphanumeric(ch);
        if alnum || ch == '_' {
            proof { lemma_ident_run(cs@, i as int); }
            let start = i;
            let mut text = String::new();
            while i < cs.len() && (is_alphanumeric(cs[i]) || cs[i] == '_')
                invariant
                    cs@ == input@,
                    start <= i <= cs.len(),
                    start + ident_run(cs@, start as int) == i + ident_run(cs@, i as int),
                    text@ == cs@.subrange(start as int, i as int),
                decreases cs.len() - i,
            {
                string_push(&mut text, cs[i]);
                assert(cs@.subrange(start as int, i + 1) =~= cs@.subrange(start as int, i as int).push(cs@[i as int]));
                i = i + 1;
            }
            proof {
                let l = Lexeme::Word(cs@.subrange(start as int, i as int));
                assert(ident_run(cs@, i as int) == 0);
                assert(lex_from(cs@, start as int) == seq![l] + lex_from(cs@, i as int));
                assert(done + lex_from(cs@, start as int) =~= done.push(l) + lex_from(cs@, i as int));
                let t = TokenTree::Ident(Ident { text });
                lemma_trees_are_push(trees@, done, t, l);
                done = done.push(l);
            }
            trees.push(TokenTree::Ident(Ident { text }));
        } else if is_whitespace(ch) {
            if ch == '\n' {
                proof {
                    let l = Lexeme::Symbol(ch);
                    lemma_lex_punct(cs@, i as int);
                    assert(done + lex_from(cs@, i as int) =~= done.push(l) + lex_from(cs@, i + 1));
                    lemma_trees_are_push(trees@, done, TokenTree::Punct(Punct { ch: '\n' }), l);
                    done = done.push(l);
                }
                trees.push(TokenTree::Punct(Punct { ch: '\n' }));
                i = i + 1;
            } else {
                proof { lemma_blank_run(cs@, i as int); }
                let start = i;
                let mut text = String::new();
                while i < cs.len() && is_whitespace(cs[i]) && cs[i] != '\n'
                    invariant
                        cs@ == input@,
                        start <= i <= cs.len(),
                        start + blank_run(cs@, start as int) == i + blank_run(cs@, i as int),
                        text@ == cs@.subrange(start as int, i as int),
                    decreases cs.len() - i,
                {
                    string_push(&mut text, cs[i]);
                    assert(cs@.subrange(start as int, i + 1) =~= cs@.subrange(start as int, i as int).push(cs@[i as int]));
                    i = i + 1;
                }
                proof {
                    let l = Lexeme::Blank(cs@.subrange(start as int, i as int));
                    assert(blank_run(cs@, i as int) == 0);
                    assert(lex_from(cs@, start as int) == seq![l] + lex_from(cs@, i as int));
                    assert(done + lex_from(cs@, start as int) =~= done.push(l) + lex_from(cs@, i as int));
                    let t = TokenTree::Literal(Literal { text });
                    lemma_trees_are_push(trees@, done, t, l);
                    done = done.push(l);
                }
                trees.push(TokenTree::Literal(Literal { text }));
            }
        } else {
            proof {
                let l = Lexeme::Symbol(ch);
                lemma_lex_punct(cs@, i as int);
                assert(done + lex_from(cs@, i as int) =~= done.push(l) + lex_from(cs@, i + 1));
                lemma_trees_are_push(trees@, done, TokenTree::Punct(Punct { ch }), l);
                done = done.push(l);
            }
            trees.push(TokenTree::Punct(Punct { ch }));
            i = i + 1;
        }
    }
    assert(done =~= all);
    TokenStream::new(trees)
}


proof fn lemma_lex_punct(cs: Seq<char>, i: int)
    requires
        0 <= i < cs.len(),
        !is_ident_char(cs[i]),
        !is_blank(cs[i]),
    ensures
        lex_from(cs, i) == seq![Lexeme::Symbol(cs[i])] + lex_from(cs, i + 1),
{
}

/// The text of a lexeme.
pub open spec fn lexeme_text(l: Lexeme) -> Seq<char> {
    match l {
        Lexeme::Word(s) => s,
        Lexeme::Symbol(c) => seq![c],
        Lexeme::Blank(s) => s,
    }
}

/// The texts of the lexemes, one after another.
pub open spec fn render_lexemes(ls: Seq<Lexeme>) -> Seq<char>
    decreases ls.len(),
{
    if ls.len() == 0 {
        seq![]
    } else {
        lexeme_text(ls[0]) + render_lexemes(ls.drop_first())
    }
}

proof fn lemma_render_tree_is(t: TokenTree, l: Lexeme)
    requires
        tree_is(t, l),
    ensures
        render_tree(t) == lexeme_text(l),
{
    match (t, l) {
        (TokenTree::Ident(id), Lexeme::Word(s)) => {},
        (TokenTree::Punct(p), Lexeme::Symbol(c)) => {},
        (TokenTree::Literal(x), Lexeme::Blank(s)) => {},
        _ => {},
    }
}

proof fn lemma_render_trees_are(ts: Seq<TokenTree>, ls: Seq<Lexeme>)
    requires
        trees_are(ts, ls),
    ensures
        render_trees(ts) == render_lexemes(ls),
    decreases ts.len(),
{
    if ts.len() > 0 {
        assert(tree_is(ts[0], ls[0]));
        lemma_render_tree_is(ts[0], ls[0]);
        assert(trees_are(ts.drop_first(), ls.drop_first())) by {
            assert forall|k: int| 0 <= k < ts.drop_first().len() implies #[trigger] tree_is(
                ts.drop_first()[k],
                ls.drop_first()[k],
            ) by {
                assert(tree_is(ts[k + 1], ls[k + 1]));
            }
        }
        lemma_render_trees_are(ts.drop_first(), ls.drop_first());
    }
}

proof fn lemma_render_lex_from(cs: Seq<char>, i: int)
    requires
        0 <= i <= cs.len(),
    ensures
        render_lexemes(lex_from(cs, i)) == cs.subrange(i, cs.len() as int),
    decreases cs.len() - i,
{
    if i < cs.len() {
        lemma_ident_run(cs, i);
        lemma_blank_run(cs, i);
        let (l, e) = lexeme_at(cs, i);
        assert(i < e <= cs.len());
        lemma_render_lex_from(cs, e);
        assert((seq![l] + lex_from(cs, e)).drop_first() =~= lex_from(cs, e));
        assert(lexeme_text(l) =~= cs.subrange(i, e));
        assert(cs.subrange(i, e) + cs.subrange(e, cs.len() as int) =~= cs.subrange(i, cs.len() as int));
    } else {
        assert(cs.subrange(i, cs.len() as int) =~= Seq::<char>::empty());
    }
}

/// Lexing loses nothing: the token trees that `lex_token_stream` makes of a
/// text render back to exactly that text.
pub proof fn law_lex_render_round_trip(cs: Seq<char>, ts: Seq<TokenTree>)
    requires
        trees_are(ts, lex_from(cs, 0)),
    ensures
        render_trees(ts) == cs,
{
    lemma_render_trees_are(ts, lex_from(cs, 0));
    lemma_render_lex_from(cs, 0);
    assert(cs.subrange(0, cs.len() as int) =~= cs);
}


/// Whether a token tree is the punctuation `c`.
pub open spec fn is_char_punct(t: TokenTree, c: char) -> bool {
    t matches TokenTree::Punct(p) && p.ch == c
}

/// Whether the trees at `i` open a Beancount block: three backticks, then
/// the identifier `beancount`.
pub open spec fn is_beancount_start(ts: Seq<TokenTree>, i: int) -> bool {
    &&& 0 <= i
    &&& i + 3 < ts.len()
    &&& is_char_punct(ts[i], '`')
    &&& is_char_punct(ts[i + 1], '`')
    &&& is_char_punct(ts[i + 2], '`')
    &&& ts[i + 3] matches TokenTree::Ident(id) && id.text@ == "beancount"@
}

/// Whether the trees at `i` close a block: three backticks.
pub open spec fn is_block_end(ts: Seq<TokenTree>, i: int) -> bool {
    &&& 0 <= i
    &&& i + 2 < ts.len()
    &&& is_char_punct(ts[i], '`')
    &&& is_char_punct(ts[i + 1], '`')
    &&& is_char_punct(ts[i + 2], '`')
}

/// For each tree from `i` on, scanning with the given block state, whether a
/// comment marker follows it: a newline outside a Beancount block that is
/// not the last tree and is not followed by the start of a block. The
/// opening and closing backticks of blocks are passed over as units.
pub open spec fn comment_flags(ts: Seq<TokenTree>, i: int, in_block: bool) -> Seq<bool>
    decreases ts.len() - i,
{
    if i < 0 || i >= ts.len() {
        seq![]
    } else if !in_block && is_beancount_start(ts, i) {
        seq![false, false, false, false] + comment_flags(ts, i + 4, true)
    } else if in_block && is_block_end(ts, i) {
        seq![false, false, false] + comment_flags(ts, i + 3, false)
    } else {
        seq![
            is_char_punct(ts[i], '\n') && !in_block && i + 1 < ts.len() && !is_beancount_start(ts, i + 1),
        ] + comment_flags(ts, i + 1, in_block)
    }
}

/// One tree of the plugin's output: an input tree by its index, or one of
/// the two trees of a comment marker (`;` and a space).
pub enum Emit {
    Tree(int),
    Semicolon,
    Space,
}

/// The comment marker: `;` followed by a space.
pub open spec fn marker() -> Seq<Emit> {
    seq![Emit::Semicolon, Emit::Space]
}

/// The input trees from index `j` on, each followed by a marker where its
/// flag is set.
pub open spec fn woven(flags: Seq<bool>, j: int) -> Seq<Emit>
    decreases flags.len() - j,
{
    if j < 0 || j >= flags.len() {
        seq![]
    } else {
        seq![Emit::Tree(j)] + (if flags[j] { marker() } else { seq![] }) + woven(flags, j + 1)
    }
}

/// What the Markdown plugin emits for the trees `ts` of the file `path`:
/// the trees unchanged unless the path ends in `.md`; otherwise a marker
/// first (unless the file starts with a Beancount block), then the trees
/// with a marker after each flagged newline.
pub open spec fn plugin_items(path: Seq<char>, ts: Seq<TokenTree>) -> Seq<Emit> {
    if !ends_with(path, ".md"@) {
        Seq::new(ts.len(), |j: int| Emit::Tree(j))
    } else {
        (if is_beancount_start(ts, 0) { seq![] } else { marker() }) + woven(
            comment_flags(ts, 0, false),
            0,
        )
    }
}

/// Whether the output tree `t` is what the item `e` stands for.
pub open spec fn emitted_as(t: TokenTree, e: Emit, ts: Seq<TokenTree>) -> bool {
    match e {
        Emit::Tree(j) => t == ts[j],
        Emit::Semicolon => is_char_punct(t, ';'),
        Emit::Space => t matches TokenTree::Literal(l) && l.text@ == seq![' '],
    }
}

/// Whether `out` is, tree for tree, what the items stand for.
pub open spec fn emits(out: Seq<TokenTree>, items: Seq<Emit>, ts: Seq<TokenTree>) -> bool {
    &&& out.len() == items.len()
    &&& forall|k: int| 0 <= k < out.len() ==> #[trigger] emitted_as(out[k], items[k], ts)
}

proof fn lemma_emits_push(out: Seq<TokenTree>, items: Seq<Emit>, ts: Seq<TokenTree>, t: TokenTree, e: Emit)
    requires
        emits(out, items, ts),
        emitted_as(t, e, ts),
    ensures
        emits(out.push(t), items.push(e), ts),
{
    assert forall|k: int| 0 <= k < out.push(t).len() implies #[trigger] emitted_as(out.push(t)[k], items.push(e)[k], ts) by {
        if k < out.len() {
            assert(out.push(t)[k] == out[k]);
            assert(items.push(e)[k] == items[k]);
        }
    }
}

fn is_backtick(t: &TokenTree) -> (r: bool)
    ensures
        r == is_char_punct(*t, '`'),
{
    match t {
        TokenTree::Punct(p) => p.ch == '`',
        _ => false,
    }
}

fn is_newline(t: &TokenTree) -> (r: bool)
    ensures
        r == is_char_punct(*t, '\n'),
{
    match t {
        TokenTree::Punct(p) => p.ch == '\n',
        _ => false,
    }
}

fn is_beancount_word(t: &TokenTree) -> (r: bool)
    ensures
        r == (*t matches TokenTree::Ident(id) && id.text@ == "beancount"@),
{
    match t {
        TokenTree::Ident(id) => {
            let word = String::from_str("beancount");
            id.text == word
        },
        _ => false,
    }
}

fn beancount_start_at(trees: &Vec<TokenTree>, i: usize) -> (r: bool)
    ensures
        r == is_beancount_start(trees@, i as int),
{
    if i >= trees.len() || trees.len() - i <= 3 {
        return false;
    }
    is_backtick(&trees[i]) && is_backtick(&trees[i + 1]) && is_backtick(&trees[i + 2])
        && is_beancount_word(&trees[i + 3])
}

fn block_end_at(trees: &Vec<TokenTree>, i: usize) -> (r: bool)
    ensures
        r == is_block_end(trees@, i as int),
{
    if i >= trees.len() || trees.len() - i <= 2 {
        return false;
    }
    is_backtick(&trees[i]) && is_backtick(&trees[i + 1]) && is_backtick(&trees[i + 2])
}

fn comment_plan(trees: &Vec<TokenTree>) -> (flags: Vec<bool>)
    ensures
        flags@ == comment_flags(trees@, 0, false),
{
    let ghost ts = trees@;
    let mut flags: Vec<bool> = Vec::new();
    let mut i: usize = 0;
    let mut in_block = false;
    while i < trees.len()
        invariant
            ts == trees@,
            i <= trees.len(),
            flags@ + comment_flags(ts, i as int, in_block) == comment_flags(ts, 0, false),
        decreases trees.len() - i,
    {
        let ghost old_flags = flags@;
        if !in_block && beancount_start_at(trees, i) {
            flags.push(false);
            flags.push(false);
            flags.push(false);
            flags.push(false);
            assert(flags@ + comment_flags(ts, i + 4, true) =~= old_flags + comment_flags(ts, i as int, in_block));
            i = i + 4;
            in_block = true;
        } else if in_block && block_end_at(trees, i) {
            flags.push(false);
            flags.push(false);
            flags.push(false);
            assert(flags@ + comment_flags(ts, i + 3, false) =~= old_flags + comment_flags(ts, i as int, in_block));
            i = i + 3;
            in_block = false;
        } else {
            let f = is_newline(&trees[i]) && !in_block && i + 1 < trees.len()
                && !beancount_start_at(trees, i + 1);
            flags.push(f);
            assert(flags@ + comment_flags(ts, i + 1, in_block) =~= old_flags + comment_flags(ts, i as int, in_block));
            i = i + 1;
        }
    }
    assert(comment_flags(ts, i as int, in_block) =~= Seq::<bool>::empty());
    assert(flags@ =~= comment_flags(ts, 0, false));
    flags
}

proof fn lemma_comment_flags_len(ts: Seq<TokenTree>, i: int, in_block: bool)
    requires
        0 <= i <= ts.len(),
    ensures
        comment_flags(ts, i, in_block).len() == ts.len() - i,
    decreases ts.len() - i,
{
    if i < ts.len() {
        if !in_block && is_beancount_start(ts, i) {
            lemma_comment_flags_len(ts, i + 4, true);
        } else if in_block && is_block_end(ts, i) {
            lemma_comment_flags_len(ts, i + 3, false);
        } else {
            lemma_comment_flags_len(ts, i + 1, in_block);
        }
    }
}

fn push_marker(out: &mut Vec<TokenTree>)
    ensures
        final(out)@.len() == old(out)@.len() + 2,
        forall|k: int| 0 <= k < old(out)@.len() ==> #[trigger] final(out)@[k] == old(out)@[k],
        is_char_punct(final(out)@[old(out)@.len() as int], ';'),
        final(out)@[old(out)@.len() as int + 1] matches TokenTree::Literal(l) && l.text@ == seq![' '],
{
    out.push(TokenTree::Punct(Punct { ch: ';' }));
    let mut space = String::new();
    string_push(&mut space, ' ');
    out.push(TokenTree::Literal(Literal { text: space }));
}

/// A plugin rewrites the token stream of a source file.
pub trait Plugin {
    /// Rewrites the stream of the file at `filepath`.
    fn process(&self, filepath: &str, stream: TokenStream) -> TokenStream;
}

/// Turns a literate Markdown ledger into Beancount: every line outside the
/// ```` ```beancount ```` blocks becomes a comment.
pub struct MarkdownPlugin;

impl Plugin for MarkdownPlugin {
    /// Leaves the stream alone unless the path ends in `.md`; otherwise puts
    /// the comment marker `; ` at the start (unless the file opens with a
    /// Beancount block) and after every newline outside a block that is not
    /// the last tree and is not followed by the opening of a block.
    fn process(&self, filepath: &str, stream: TokenStream) -> (r: TokenStream)
        ensures
            !ends_with(filepath@, ".md"@) ==> r.trees@ == stream.trees@,
            emits(r.trees@, plugin_items(filepath@, stream.trees@), stream.trees@),
    {
        let ghost ts = stream.trees@;
        if !str_ends_with(filepath, ".md") {
            assert(emits(stream.trees@, plugin_items(filepath@, ts), ts));
            return stream;
        }
        let mut trees = stream.trees;
        let first = !beancount_start_at(&trees, 0);
        let flags = comment_plan(&trees);
        proof { lemma_comment_flags_len(ts, 0, false); }
        let n = trees.len();
        // Reverse the trees so that popping hands them out in order.
        let mut rev: Vec<TokenTree> = Vec::new();
        while trees.len() > 0
            invariant
                trees@.len() + rev@.len() == n,
                n == ts.len(),
                forall|k: int| 0 <= k < trees@.len() ==> #[trigger] trees@[k] == ts[k],
                forall|k: int| 0 <= k < rev@.len() ==> #[trigger] rev@[k] == ts[n - 1 - k],
            decreases trees.len(),
        {
            let t = trees.pop().unwrap();
            rev.push(t);
        }
        let mut out: Vec<TokenTree> = Vec::new();
        let ghost mut done: Seq<Emit> = seq![];
        if first {
            push_marker(&mut out);
            proof {
                done = marker();
                assert(emits(out@, done, ts));
            }
        }
        let ghost total = plugin_items(filepath@, ts);
        assert(total =~= done + woven(flags@, 0));
        let mut j: usize = 0;
        while j < n
            invariant
                n == ts.len(),
                flags@.len() == n,
                flags@ == comment_flags(ts, 0, false),
                j <= n,
                rev@.len() == n - j,
                forall|k: int| 0 <= k < rev@.len() ==> #[trigger] rev@[k] == ts[n - 1 - k],
                total == done + woven(flags@, j as int),
                emits(out@, done, ts),
            decreases n - j,
        {
            let t = rev.pop().unwrap();
            assert(t == ts[j as int]);
            proof {
                lemma_emits_push(out@, done, ts, t, Emit::Tree(j as int));
            }
            let ghost d1 = done.push(Emit::Tree(j as int));
            out.push(t);
            if flags[j] {
                let ghost o1 = out@;
                push_marker(&mut out);
                proof {
                    lemma_emits_push(o1, d1, ts, out@[o1.len() as int], Emit::Semicolon);
                    lemma_emits_push(o1.push(out@[o1.len() as int]), d1.push(Emit::Semicolon), ts, out@[o1.len() as int + 1], Emit::Space);
                    assert(out@ =~= o1.push(out@[o1.len() as int]).push(out@[o1.len() as int + 1]));
                    done = d1 + marker();
                    assert(d1.push(Emit::Semicolon).push(Emit::Space) =~= done);
                }
            } else {
                proof { done = d1; }
            }
            proof {
                assert(woven(flags@, j as int) =~= seq![Emit::Tree(j as int)] + (if flags@[j as int] { marker() } else { seq![] }) + woven(flags@, j + 1));
            }
            j = j + 1;
        }
        assert(done =~= total);
        TokenStream::new(out)
    }
}


/// The input indices that the items keep, in order.
pub open spec fn tree_indices(items: Seq<Emit>) -> Seq<int>
    decreases items.len(),
{
    if items.len() == 0 {
        seq![]
    } else {
        (match items[0] {
            Emit::Tree(j) => seq![j],
            _ => seq![],
        }) + tree_indices(items.drop_first())
    }
}

proof fn lemma_tree_indices_concat(a: Seq<Emit>, b: Seq<Emit>)
    ensures
        tree_indices(a + b) == tree_indices(a) + tree_indices(b),
    decreases a.len(),
{
    if a.len() == 0 {
        assert(a + b =~= b);
    } else {
        assert((a + b).drop_first() =~= a.drop_first() + b);
        lemma_tree_indices_concat(a.drop_first(), b);
        assert(tree_indices(a + b) =~= tree_indices(a) + tree_indices(b));
    }
}

proof fn lemma_tree_indices_marker()
    ensures
        tree_indices(marker()) == Seq::<int>::empty(),
{
    reveal_with_fuel(tree_indices, 3);
    assert(marker().drop_first().drop_first() =~= Seq::<Emit>::empty());
    assert(tree_indices(marker()) =~= Seq::<int>::empty());
}

proof fn lemma_tree_indices_single(j: int)
    ensures
        tree_indices(seq![Emit::Tree(j)]) == seq![j],
{
    reveal_with_fuel(tree_indices, 2);
    assert(seq![Emit::Tree(j)].drop_first() =~= Seq::<Emit>::empty());
    assert(tree_indices(seq![Emit::Tree(j)]) =~= seq![j]);
}

proof fn lemma_tree_indices_woven(flags: Seq<bool>, j: int)
    requires
        0 <= j <= flags.len(),
    ensures
        tree_indices(woven(flags, j)) == Seq::new((flags.len() - j) as nat, |k: int| j + k),
    decreases flags.len() - j,
{
    if j == flags.len() {
        assert(tree_indices(woven(flags, j)) =~= Seq::new((flags.len() - j) as nat, |k: int| j + k));
    } else {
        let head = seq![Emit::Tree(j)] + (if flags[j] { marker() } else { seq![] });
        assert(woven(flags, j) == head + woven(flags, j + 1));
        lemma_tree_indices_concat(head, woven(flags, j + 1));
        lemma_tree_indices_concat(seq![Emit::Tree(j)], if flags[j] { marker() } else { seq![] });
        lemma_tree_indices_marker();
        lemma_tree_indices_single(j);
        lemma_tree_indices_woven(flags, j + 1);
        assert(tree_indices(woven(flags, j)) =~= Seq::new((flags.len() - j) as nat, |k: int| j + k));
    }
}

proof fn lemma_comment_flags_newline(ts: Seq<TokenTree>, i: int, in_block: bool, k: int)
    requires
        0 <= i <= ts.len(),
        0 <= k < comment_flags(ts, i, in_block).len(),
        comment_flags(ts, i, in_block)[k],
    ensures
        is_char_punct(ts[i + k], '\n'),
    decreases ts.len() - i,
{
    lemma_comment_flags_len(ts, i, in_block);
    if !in_block && is_beancount_start(ts, i) {
        lemma_comment_flags_len(ts, i + 4, true);
        if k >= 4 {
            lemma_comment_flags_newline(ts, i + 4, true, k - 4);
        }
    } else if in_block && is_block_end(ts, i) {
        lemma_comment_flags_len(ts, i + 3, false);
        if k >= 3 {
            lemma_comment_flags_newline(ts, i + 3, false, k - 3);
        }
    } else {
        lemma_comment_flags_len(ts, i + 1, in_block);
        if k >= 1 {
            lemma_comment_flags_newline(ts, i + 1, in_block, k - 1);
        }
    }
}

/// Every `;` of a marker is followed by its space, and every such space
/// follows its `;`; a `;` stands first or right after a kept newline.
pub open spec fn markers_well_placed(items: Seq<Emit>, ts: Seq<TokenTree>) -> bool {
    &&& forall|k: int|
        0 <= k < items.len() && #[trigger] items[k] is Semicolon ==> {
            &&& k + 1 < items.len()
            &&& items[k + 1] is Space
            &&& (k == 0 || (items[k - 1] matches Emit::Tree(j) && 0 <= j < ts.len()
                && is_char_punct(ts[j], '\n')))
        }
    &&& forall|k: int|
        0 <= k < items.len() && #[trigger] items[k] is Space ==> k > 0 && items[k - 1] is Semicolon
}

proof fn lemma_woven_markers(ts: Seq<TokenTree>, flags: Seq<bool>, j: int)
    requires
        0 <= j <= flags.len(),
        flags.len() == ts.len(),
        forall|k: int| 0 <= k < flags.len() && #[trigger] flags[k] ==> is_char_punct(ts[k], '\n'),
    ensures
        markers_well_placed(woven(flags, j), ts),
        woven(flags, j).len() > 0 ==> woven(flags, j)[0] is Tree,
    decreases flags.len() - j,
{
    if j < flags.len() {
        lemma_woven_markers(ts, flags, j + 1);
        let rest = woven(flags, j + 1);
        let head = seq![Emit::Tree(j)] + (if flags[j] { marker() } else { seq![] });
        let w = head + rest;
        assert(woven(flags, j) == w);
        let h = head.len() as int;
        assert forall|k: int| 0 <= k < w.len() && #[trigger] w[k] is Semicolon implies {
            &&& k + 1 < w.len()
            &&& w[k + 1] is Space
            &&& (k == 0 || (w[k - 1] matches Emit::Tree(jj) && 0 <= jj < ts.len()
                && is_char_punct(ts[jj], '\n')))
        } by {
            if k >= h {
                assert(w[k] == rest[k - h]);
                assert(k - h != 0);
                assert(rest[k - h] is Semicolon);
                assert(w[k + 1] == rest[k - h + 1]);
                assert(w[k - 1] == rest[k - h - 1]);
            } else {
                assert(flags[j]);
                assert(k == 1);
            }
        }
        assert forall|k: int| 0 <= k < w.len() && #[trigger] w[k] is Space implies k > 0 && w[k - 1] is Semicolon by {
            if k >= h {
                assert(w[k] == rest[k - h]);
                assert(rest[k - h] is Space);
                assert(w[k - 1] == rest[k - h - 1]);
            }
        }
    }
}

proof fn lemma_plugin_indices(path: Seq<char>, ts: Seq<TokenTree>)
    ensures
        tree_indices(plugin_items(path, ts)) == Seq::new(ts.len(), |j: int| j),
{
    if !ends_with(path, ".md"@) {
        lemma_tree_indices_new(ts.len());
    } else {
        let flags = comment_flags(ts, 0, false);
        lemma_comment_flags_len(ts, 0, false);
        lemma_tree_indices_woven(flags, 0);
        let pre: Seq<Emit> = if is_beancount_start(ts, 0) { seq![] } else { marker() };
        lemma_tree_indices_concat(pre, woven(flags, 0));
        lemma_tree_indices_marker();
        assert(tree_indices(Seq::<Emit>::empty()) =~= Seq::<int>::empty());
        assert(Seq::new((flags.len() - 0) as nat, |k: int| 0 + k) =~= Seq::new(ts.len(), |j: int| j));
    }
}

proof fn lemma_plugin_markers(path: Seq<char>, ts: Seq<TokenTree>)
    ensures
        markers_well_placed(plugin_items(path, ts), ts),
{
    let items = plugin_items(path, ts);
    if ends_with(path, ".md"@) {
        let flags = comment_flags(ts, 0, false);
        lemma_comment_flags_len(ts, 0, false);
        assert forall|k: int| 0 <= k < flags.len() && #[trigger] flags[k] implies is_char_punct(ts[k], '\n') by {
            lemma_comment_flags_newline(ts, 0, false, k);
        }
        lemma_woven_markers(ts, flags, 0);
        let pre: Seq<Emit> = if is_beancount_start(ts, 0) { seq![] } else { marker() };
        let w = woven(flags, 0);
        assert(items == pre + w);
        let h = pre.len() as int;
        assert forall|k: int| 0 <= k < items.len() && #[trigger] items[k] is Semicolon implies {
            &&& k + 1 < items.len()
            &&& items[k + 1] is Space
            &&& (k == 0 || (items[k - 1] matches Emit::Tree(jj) && 0 <= jj < ts.len()
                && is_char_punct(ts[jj], '\n')))
        } by {
            if k >= h {
                assert(items[k] == w[k - h]);
                assert(items[k + 1] == w[k - h + 1]);
                if k - h > 0 {
                    assert(items[k - 1] == w[k - h - 1]);
                } else {
                    assert(w[0] is Tree);
                }
            }
        }
        assert forall|k: int| 0 <= k < items.len() && #[trigger] items[k] is Space implies k > 0 && items[k - 1] is Semicolon by {
            if k >= h {
                assert(items[k] == w[k - h]);
                if k - h > 0 {
                    assert(items[k - 1] == w[k - h - 1]);
                } else {
                    assert(w[0] is Tree);
                }
            }
        }
    }
}

/// The Markdown plugin only inserts comment markers: dropping them gives
/// back the input trees in order, each marker is a `;` followed by a space,
/// and each stands at the very start or right after a newline.
pub proof fn law_markdown_plugin_inserts_only_markers(path: Seq<char>, ts: Seq<TokenTree>)
    ensures
        tree_indices(plugin_items(path, ts)) == Seq::new(ts.len(), |j: int| j),
        markers_well_placed(plugin_items(path, ts), ts),
{
    lemma_plugin_indices(path, ts);
    lemma_plugin_markers(path, ts);
}

/// How the plugin's scan visits the trees from `i` on, in the given block
/// state: for each tree, whether a step of the scan starts at it (the three
/// backticks and `beancount` that open a block, and the three backticks that
/// close one, are one step each) and whether that step lies inside a
/// Beancount block.
pub open spec fn block_steps(ts: Seq<TokenTree>, i: int, in_block: bool) -> Seq<(bool, bool)>
    decreases ts.len() - i,
{
    if i < 0 || i >= ts.len() {
        seq![]
    } else if !in_block && is_beancount_start(ts, i) {
        seq![(true, false), (false, false), (false, false), (false, false)] + block_steps(ts, i + 4, true)
    } else if in_block && is_block_end(ts, i) {
        seq![(true, true), (false, true), (false, true)] + block_steps(ts, i + 3, false)
    } else {
        seq![(true, in_block)] + block_steps(ts, i + 1, in_block)
    }
}

/// Whether the line after tree `i` is one to comment out: tree `i` is a
/// newline that the scan visits outside every Beancount block, it is not the
/// last tree, and the next line does not open a Beancount block.
pub open spec fn newline_starts_comment(ts: Seq<TokenTree>, i: int) -> bool {
    let st = block_steps(ts, 0, false)[i];
    &&& st.0
    &&& !st.1
    &&& is_char_punct(ts[i], '\n')
    &&& i + 1 < ts.len()
    &&& !is_beancount_start(ts, i + 1)
}

proof fn lemma_flags_follow_steps(ts: Seq<TokenTree>, i: int, b: bool)
    requires
        0 <= i <= ts.len(),
    ensures
        comment_flags(ts, i, b).len() == ts.len() - i,
        block_steps(ts, i, b).len() == ts.len() - i,
        forall|m: int|
            0 <= m < ts.len() - i ==> #[trigger] comment_flags(ts, i, b)[m] == {
                let st = block_steps(ts, i, b)[m];
                st.0 && !st.1 && is_char_punct(ts[i + m], '\n') && i + m + 1 < ts.len() && !is_beancount_start(
                    ts,
                    i + m + 1,
                )
            },
    decreases ts.len() - i,
{
    if i < ts.len() {
        let f = comment_flags(ts, i, b);
        let st = block_steps(ts, i, b);
        if !b && is_beancount_start(ts, i) {
            lemma_flags_follow_steps(ts, i + 4, true);
            let f2 = comment_flags(ts, i + 4, true);
            let s2 = block_steps(ts, i + 4, true);
            assert forall|m: int| 0 <= m < ts.len() - i implies #[trigger] f[m] == {
                let x = st[m];
                x.0 && !x.1 && is_char_punct(ts[i + m], '\n') && i + m + 1 < ts.len() && !is_beancount_start(ts, i + m + 1)
            } by {
                if m >= 4 {
                    assert(f[m] == f2[m - 4]);
                    assert(st[m] == s2[m - 4]);
                }
            }
        } else if b && is_block_end(ts, i) {
            lemma_flags_follow_steps(ts, i + 3, false);
            let f2 = comment_flags(ts, i + 3, false);
            let s2 = block_steps(ts, i + 3, false);
            assert forall|m: int| 0 <= m < ts.len() - i implies #[trigger] f[m] == {
                let x = st[m];
                x.0 && !x.1 && is_char_punct(ts[i + m], '\n') && i + m + 1 < ts.len() && !is_beancount_start(ts, i + m + 1)
            } by {
                if m >= 3 {
                    assert(f[m] == f2[m - 3]);
                    assert(st[m] == s2[m - 3]);
                }
            }
        } else {
            lemma_flags_follow_steps(ts, i + 1, b);
            let f2 = comment_flags(ts, i + 1, b);
            let s2 = block_steps(ts, i + 1, b);
            assert forall|m: int| 0 <= m < ts.len() - i implies #[trigger] f[m] == {
                let x = st[m];
                x.0 && !x.1 && is_char_punct(ts[i + m], '\n') && i + m + 1 < ts.len() && !is_beancount_start(ts, i + m + 1)
            } by {
                if m >= 1 {
                    assert(f[m] == f2[m - 1]);
                    assert(st[m] == s2[m - 1]);
                }
            }
        }
    }
}

proof fn lemma_woven_position(flags: Seq<bool>, j: int, i: int) -> (k: int)
    requires
        0 <= j <= i < flags.len(),
    ensures
        0 <= k < woven(flags, j).len(),
        woven(flags, j)[k] == Emit::Tree(i),
        flags[i] <==> (k + 1 < woven(flags, j).len() && woven(flags, j)[k + 1] is Semicolon),
        flags[i] ==> k + 2 < woven(flags, j).len() && woven(flags, j)[k + 2] is Space,
    decreases i - j,
{
    let head = seq![Emit::Tree(j)] + (if flags[j] { marker() } else { seq![] });
    let rest = woven(flags, j + 1);
    let w = woven(flags, j);
    assert(w == head + rest);
    if j == i {
        if !flags[i] && 0 < rest.len() {
            assert(rest[0] == Emit::Tree(j + 1));
        }
        0
    } else {
        let k2 = lemma_woven_position(flags, j + 1, i);
        let k = head.len() + k2;
        assert(w[k] == rest[k2]);
        if k2 + 1 < rest.len() {
            assert(w[k + 1] == rest[k2 + 1]);
        }
        if k2 + 2 < rest.len() {
            assert(w[k + 2] == rest[k2 + 2]);
        }
        k
    }
}

/// The Markdown plugin comments out every line outside the Beancount
/// blocks: the output opens with a marker unless the file opens a block,
/// and every input tree `i` is kept, followed by a marker (`;` and a space)
/// exactly when it is a newline that ends a line to comment out (see
/// `newline_starts_comment`), whatever comes after that newline.
pub proof fn law_markdown_plugin_comments_every_line(path: Seq<char>, ts: Seq<TokenTree>, out: Seq<TokenTree>, i: int)
    requires
        ends_with(path, ".md"@),
        emits(out, plugin_items(path, ts), ts),
        0 <= i < ts.len(),
    ensures
        plugin_items(path, ts)[0] is Semicolon <==> !is_beancount_start(ts, 0),
        exists|k: int|
            0 <= k < out.len() && #[trigger] plugin_items(path, ts)[k] == Emit::Tree(i) && out[k] == ts[i]
                && (newline_starts_comment(ts, i) <==> (k + 1 < out.len() && plugin_items(path, ts)[k + 1] is Semicolon))
                && (newline_starts_comment(ts, i) ==> (is_char_punct(out[k + 1], ';')
                    && (out[k + 2] matches TokenTree::Literal(l) && l.text@ == seq![' ']))),
{
    let items = plugin_items(path, ts);
    let flags = comment_flags(ts, 0, false);
    lemma_flags_follow_steps(ts, 0, false);
    let pre: Seq<Emit> = if is_beancount_start(ts, 0) { seq![] } else { marker() };
    let w = woven(flags, 0);
    assert(items == pre + w);
    let k2 = lemma_woven_position(flags, 0, i);
    let k = pre.len() + k2;
    assert(items[k] == w[k2]);
    assert(flags[i] == newline_starts_comment(ts, i));
    if k2 + 1 < w.len() {
        assert(items[k + 1] == w[k2 + 1]);
    }
    if k2 + 2 < w.len() {
        assert(items[k + 2] == w[k2 + 2]);
    }
    assert(emitted_as(out[k], items[k], ts));
    if newline_starts_comment(ts, i) {
        assert(emitted_as(out[k + 1], items[k + 1], ts));
        assert(emitted_as(out[k + 2], items[k + 2], ts));
    }
    if is_beancount_start(ts, 0) {
        assert(items[0] == w[0]);
        assert(w[0] == Emit::Tree(0));
    }
}

proof fn lemma_tree_indices_new(m: nat)
    ensures
        tree_indices(Seq::new(m, |j: int| Emit::Tree(j))) == Seq::new(m, |j: int| j),
    decreases m,
{
    if m > 0 {
        let s = Seq::new(m, |j: int| Emit::Tree(j));
        let p = Seq::new((m - 1) as nat, |j: int| Emit::Tree(j));
        assert(s =~= p + seq![Emit::Tree(m - 1)]);
        lemma_tree_indices_concat(p, seq![Emit::Tree(m - 1)]);
        lemma_tree_indices_new((m - 1) as nat);
        lemma_tree_indices_single(m - 1);
        assert(tree_indices(s) =~= Seq::new(m, |j: int| j));
    } else {
        assert(Seq::new(m, |j: int| Emit::Tree(j)) =~= Seq::<Emit>::empty());
        assert(Seq::new(m, |j: int| j) =~= Seq::<int>::empty());
    }
}


/// Runs the Markdown plugin over the text of the file at `filepath`: lexes
/// the text, comments out what lies outside the Beancount blocks when the
/// path ends in `.md`, and renders the result. Any other file comes back
/// unchanged.
pub fn process_markdown_stream(filepath: &str, input: &str) -> (r: String)
    ensures
        exists|ts: Seq<TokenTree>, out: Seq<TokenTree>|
            #![trigger trees_are(ts, lex_from(input@, 0)), emits(out, plugin_items(filepath@, ts), ts)]
            trees_are(ts, lex_from(input@, 0)) && emits(out, plugin_items(filepath@, ts), ts)
                && r@ == render_trees(out),
        !ends_with(filepath@, ".md"@) ==> r@ == input@,
{
    let stream = lex_token_stream(input);
    let ghost ts = stream.trees@;
    let plugin = MarkdownPlugin;
    let modified = plugin.process(filepath, stream);
    let r = modified.to_string();
    proof {
        if !ends_with(filepath@, ".md"@) {
            law_lex_render_round_trip(input@, ts);
        }
    }
    r
}

} // verus!
