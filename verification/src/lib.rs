//! A literate Beancount toolkit: Markdown lexing, the comment-out plugin that
//! turns a literate Markdown ledger into a Beancount file, transaction
//! balancing, trial balances and the position helpers of `bean-check`.
use vstd::prelude::*;
use vstd::string::StringSliceAdditionalSpecFns;

pub mod text;
pub mod plugin;
pub mod parser;
pub mod lexer;
pub mod decimal;
pub mod ast;
pub mod ledger;
pub mod beancount_parser;
pub mod validator;
pub mod reports;
pub mod check;

verus! {

/// Parses Markdown into its concrete syntax tree: the tokens of `source`
/// in order (see `lexer::tokenized`), each with its byte span and the text
/// of that span; lexing errors are not reported.
pub fn parse_markdown(source: &str) -> (r: parser::Cst)
    ensures
        lexer::tokenized(source.spec_bytes(), r.nodes@.map_values(|n: parser::CstNode| n.kind), r.nodes@.map_values(|n: parser::CstNode| n.span)),
        forall|k: int|
            0 <= k < r.nodes@.len() ==> (#[trigger] r.nodes@[k]).text@ == parser::utf8_lossy(
                source.spec_bytes().subrange(r.nodes@[k].span.start as int, r.nodes@[k].span.end as int),
            ),
{
    let mut diags: Vec<parser::Diagnostic> = Vec::new();
    let (tokens, spans) = lexer::tokenize(source, &mut diags);
    let bytes = source.as_bytes();
    proof { lexer::law_tokenize_spans_tile(bytes@, tokens@, spans@); }
    let mut nodes: Vec<parser::CstNode> = Vec::new();
    let mut k: usize = 0;
    while k < tokens.len()
        invariant
            bytes@ == source.spec_bytes(),
            lexer::tokenized(bytes@, tokens@, spans@),
            spans@.len() == tokens@.len(),
            forall|j: int| 0 <= j < spans@.len() ==> (#[trigger] spans@[j]).start <= spans@[j].end <= bytes@.len(),
            k <= tokens@.len(),
            nodes@.len() == k,
            forall|j: int|
                0 <= j < k ==> {
                    &&& (#[trigger] nodes@[j]).kind == tokens@[j]
                    &&& nodes@[j].span == spans@[j]
                    &&& nodes@[j].text@ == parser::utf8_lossy(bytes@.subrange(spans@[j].start as int, spans@[j].end as int))
                },
        decreases tokens@.len() - k,
    {
        let a = spans[k].start;
        let b = spans[k].end;
        let text = parser::string_from_utf8_lossy(vstd::slice::slice_subrange(bytes, a, b));
        nodes.push(parser::CstNode { kind: tokens[k], span: a..b, text });
        k = k + 1;
    }
    assert(nodes@.map_values(|n: parser::CstNode| n.kind) =~= tokens@);
    assert(nodes@.map_values(|n: parser::CstNode| n.span) =~= spans@);
    parser::Cst { nodes }
}

} // verus!
