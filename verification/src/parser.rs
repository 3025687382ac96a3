//! The diagnostics that the Markdown lexer reports, and the concrete syntax
//! tree that `parse_markdown` builds from its tokens.
use vstd::prelude::*;
use vstd::string::StringExecFns;
use vstd::utf8::{valid_utf8, decode_utf8};
use crate::lexer::Token;

verus! {

/// A byte range of the source text.
pub type Span = std::ops::Range<usize>;

/// How serious a diagnostic is.
#[derive(Debug, Clone, Copy, PartialEq, Eq)]
pub enum Severity {
    Bug,
    Error,
    Warning,
    Note,
    Help,
}

/// Whether a label marks the main place of a diagnostic or a related one.
#[derive(Debug, Clone, Copy, PartialEq, Eq)]
pub enum LabelStyle {
    Primary,
    Secondary,
}

/// A labelled byte range of the source.
#[derive(Debug, PartialEq)]
pub struct Label {
    pub style: LabelStyle,
    pub range: Span,
    pub message: String,
}

/// A message about the source, with labelled ranges.
#[derive(Debug, PartialEq)]
pub struct Diagnostic {
    pub severity: Severity,
    pub code: Option<String>,
    pub message: String,
    pub labels: Vec<Label>,
    pub notes: Vec<String>,
}


/// What `String::from_utf8_lossy` makes of bytes.
pub uninterp spec fn utf8_lossy(b: Seq<u8>) -> Seq<char>;

/// The text of a string as `{:?}` writes it: quoted, with escapes.
pub uninterp spec fn debug_text(s: Seq<char>) -> Seq<char>;

/// Calls `String::from_utf8_lossy`: the named text of the bytes, which is
/// their decoding when they are valid UTF-8.
#[verifier::external_body]
pub(crate) fn string_from_utf8_lossy(b: &[u8]) -> (r: String)
    ensures
        r@ == utf8_lossy(b@),
        valid_utf8(b@) ==> r@ == decode_utf8(b@),
{
    String::from_utf8_lossy(b).into_owned()
}

/// Writes a string with `{:?}` (std's `Debug for str`).
#[verifier::external_body]
pub(crate) fn debug_string(s: &str) -> (r: String)
    ensures
        r@ == debug_text(s@),
{
    format!("{:?}", s)
}

/// A leaf of the concrete syntax tree: a token, its byte span and its text.
#[derive(Debug, PartialEq)]
pub struct CstNode {
    pub kind: Token,
    pub span: Span,
    pub text: String,
}

/// The concrete syntax tree of a Markdown text: its tokens in order, each
/// with its span and text, the last one `EOF`.
#[derive(Debug, PartialEq)]
pub struct Cst {
    pub nodes: Vec<CstNode>,
}

/// The name of a token kind, as `{:?}` writes it.
pub open spec fn token_name(t: Token) -> Seq<char> {
    match t {
        Token::EOF => "EOF"@,
        Token::Heading1 => "Heading1"@,
        Token::Heading2 => "Heading2"@,
        Token::Heading3 => "Heading3"@,
        Token::Heading4 => "Heading4"@,
        Token::Heading5 => "Heading5"@,
        Token::Heading6 => "Heading6"@,
        Token::Text => "Text"@,
        Token::CodeBlock => "CodeBlock"@,
        Token::Newline => "Newline"@,
        Token::Whitespace => "Whitespace"@,
        Token::Error => "Error"@,
    }
}

/// The name of a token kind, as `{:?}` writes it.
pub fn exec_token_name(t: Token) -> (r: &'static str)
    ensures
        r@ == token_name(t),
{
    match t {
        Token::EOF => "EOF",
        Token::Heading1 => "Heading1",
        Token::Heading2 => "Heading2",
        Token::Heading3 => "Heading3",
        Token::Heading4 => "Heading4",
        Token::Heading5 => "Heading5",
        Token::Heading6 => "Heading6",
        Token::Text => "Text",
        Token::CodeBlock => "CodeBlock",
        Token::Newline => "Newline",
        Token::Whitespace => "Whitespace",
        Token::Error => "Error",
    }
}

/// One line of the tree's text: the token's name, a space and its text as
/// `{:?}` writes it.
pub open spec fn node_line(n: CstNode) -> Seq<char> {
    token_name(n.kind) + " "@ + debug_text(n.text@) + "\n"@
}

/// The lines of the nodes, one after another.
pub open spec fn render_nodes(ns: Seq<CstNode>) -> Seq<char>
    decreases ns.len(),
{
    if ns.len() == 0 {
        seq![]
    } else {
        render_nodes(ns.drop_last()) + node_line(ns.last())
    }
}

impl Cst {
    /// The text of the tree: a line `Kind "text"` for every node.
    pub fn to_string(&self) -> (r: String)
        ensures
            r@ == render_nodes(self.nodes@),
    {
        let mut out = String::new();
        let mut i: usize = 0;
        while i < self.nodes.len()
            invariant
                i <= self.nodes@.len(),
                out@ == render_nodes(self.nodes@.take(i as int)),
            decreases self.nodes@.len() - i,
        {
            assert(self.nodes@.take(i + 1).drop_last() =~= self.nodes@.take(i as int));
            let n = &self.nodes[i];
            out.append(exec_token_name(n.kind));
            out.append(" ");
            let shown = debug_string(n.text.as_str());
            out.append(shown.as_str());
            out.append("\n");
            i = i + 1;
        }
        assert(self.nodes@.take(i as int) =~= self.nodes@);
        out
    }
}

} // verus!
