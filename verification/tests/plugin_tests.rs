use adzuki::plugin::{
    lex_token_stream, process_markdown_stream, Delimiter, Group, Ident, Literal, MarkdownPlugin,
    Plugin, Punct, TokenStream, TokenTree,
};

#[test]
fn test_markdown_plugin() {
    let input = "This is a test.
Another line.
```beancount
2023-01-01 * \"Payee\" \"Narration\"
  Assets:Checking -10.00 USD
  Expenses:Food 10.00 USD
```
Some more markdown here.
And another line.";

    let expected = "; This is a test.
; Another line.
```beancount
2023-01-01 * \"Payee\" \"Narration\"
  Assets:Checking -10.00 USD
  Expenses:Food 10.00 USD
```
; Some more markdown here.
; And another line.";

    let output = process_markdown_stream("test.md", input);
    assert_eq!(output, expected);

    // Also test that non-md files are not modified
    let output_unmodified = process_markdown_stream("test.beancount", input);
    assert_eq!(output_unmodified, input);
}

#[test]
fn test_markdown_plugin_starts_with_block() {
    let input = "```beancount
2023-01-01 * \"Payee\" \"Narration\"
  Assets:Checking -10.00 USD
  Expenses:Food 10.00 USD
```
Some more markdown here.
And another line.";

    let expected = "```beancount
2023-01-01 * \"Payee\" \"Narration\"
  Assets:Checking -10.00 USD
  Expenses:Food 10.00 USD
```
; Some more markdown here.
; And another line.";

    let output = process_markdown_stream("test.md", input);
    assert_eq!(output, expected);
}

#[test]
fn lex_splits_words_blanks_newlines_and_punctuation() {
    let s = lex_token_stream("ab_1  c\n-é\u{3000}x");
    assert_eq!(
        s.trees,
        vec![
            TokenTree::Ident(Ident { text: "ab_1".to_string() }),
            TokenTree::Literal(Literal { text: "  ".to_string() }),
            TokenTree::Ident(Ident { text: "c".to_string() }),
            TokenTree::Punct(Punct { ch: '\n' }),
            TokenTree::Punct(Punct { ch: '-' }),
            TokenTree::Ident(Ident { text: "é".to_string() }),
            TokenTree::Literal(Literal { text: "\u{3000}".to_string() }),
            TokenTree::Ident(Ident { text: "x".to_string() }),
        ]
    );
}

#[test]
fn lex_then_render_gives_back_the_text() {
    for text in ["", "a", "  x\n\n y\t;z", "2023-01-01 * \"P\"\n  A:B -1.00 USD\n", "héllo wörld ∑"] {
        assert_eq!(lex_token_stream(text).to_string(), text);
    }
}

#[test]
fn render_groups_inside_their_delimiters() {
    let inner = TokenStream::new(vec![TokenTree::Ident(Ident { text: "x".to_string() })]);
    let s = TokenStream::new(vec![
        TokenTree::Group(Group { delimiter: Delimiter::Parenthesis, stream: inner }),
        TokenTree::Group(Group {
            delimiter: Delimiter::Brace,
            stream: TokenStream::new(vec![TokenTree::Punct(Punct { ch: ';' })]),
        }),
        TokenTree::Group(Group {
            delimiter: Delimiter::Bracket,
            stream: TokenStream::new(vec![TokenTree::Literal(Literal { text: "1 2".to_string() })]),
        }),
        TokenTree::Group(Group {
            delimiter: Delimiter::NoDelimiter,
            stream: TokenStream::new(vec![TokenTree::Ident(Ident { text: "y".to_string() })]),
        }),
    ]);
    assert_eq!(s.to_string(), "(x){;}[1 2]y");
}

#[test]
fn plugin_comments_an_empty_markdown_file() {
    assert_eq!(process_markdown_stream("notes.md", ""), "; ");
}

#[test]
fn plugin_leaves_other_files_alone() {
    let stream = lex_token_stream("a\nb\n");
    let out = MarkdownPlugin.process("ledger.beancount", stream);
    assert_eq!(out.to_string(), "a\nb\n");
}

#[test]
fn plugin_does_not_comment_a_trailing_newline_or_inside_blocks() {
    let input = "intro\n```beancount\nx\ny\n```\nend\n";
    assert_eq!(
        process_markdown_stream("a.md", input),
        "; intro\n```beancount\nx\ny\n```\n; end\n"
    );
}

#[test]
fn plugin_keeps_other_fences_commented() {
    let input = "```rust\ncode\n```\n";
    assert_eq!(process_markdown_stream("a.md", input), "; ```rust\n; code\n; ```\n");
}
