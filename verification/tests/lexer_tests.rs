use adzuki::lexer::{tokenize, LexerError, Token};
use adzuki::parse_markdown;
use adzuki::parser::{Diagnostic, LabelStyle, Severity};

fn lex(s: &str) -> (Vec<Token>, Vec<std::ops::Range<usize>>, Vec<Diagnostic>) {
    let mut diags = vec![];
    let (t, sp) = tokenize(s, &mut diags);
    (t, sp, diags)
}

#[test]
fn lib_parse_simple_markdown() {
    let source = "# Heading\nParagraph text.\n";
    let cst = parse_markdown(source);
    println!("{}", cst.to_string());
}

#[test]
fn test_parse_headings_markdown() {
    let source = "# Heading 1\n\n## Heading 2\n";
    let cst = parse_markdown(source);

    let cst_str = cst.to_string();
    assert!(cst_str.contains("Heading1 \"# \""));
    assert!(cst_str.contains("Text \"Heading\""));
    assert!(cst_str.contains("Text \"1\""));
    assert!(cst_str.contains("Heading2 \"## \""));
    assert!(cst_str.contains("Text \"Heading\""));
    assert!(cst_str.contains("Text \"2\""));
}

#[test]
fn test_parse_code_blocks_markdown() {
    let source = "This is a paragraph before the code block.\n\n```rust\nfn main() {\n    println!(\"Hello, world!\");\n}\n```\n";
    let cst = parse_markdown(source);

    let cst_str = cst.to_string();
    assert!(cst_str.contains("CodeBlock \"```rust\\nfn main() {\\n    println!(\\\"Hello, world!\\\");\\n}\\n```\""));
    assert!(cst_str.contains("Text \"This\""));
    assert!(cst_str.contains("Text \"is\""));
    assert!(cst_str.contains("Text \"a\""));
    assert!(cst_str.contains("Text \"paragraph\""));
    assert!(cst_str.contains("Text \"before\""));
    assert!(cst_str.contains("Text \"the\""));
    assert!(cst_str.contains("Text \"code\""));
    assert!(cst_str.contains("Text \"block.\""));
}

#[test]
fn tokenize_headings_words_and_blanks() {
    let (t, sp, d) = lex("# Hi ###### x\n####### y");
    assert_eq!(
        t,
        vec![
            Token::Heading1,
            Token::Text,
            Token::Whitespace,
            Token::Heading6,
            Token::Text,
            Token::Newline,
            Token::Text,
            Token::Heading1,
            Token::Text,
            Token::EOF
        ]
    );
    assert_eq!(sp, vec![0..2, 2..4, 4..5, 5..12, 12..13, 13..14, 14..20, 20..22, 22..23, 23..23]);
    assert!(d.is_empty());
}

#[test]
fn tokenize_code_block_and_error_word() {
    let (t, sp, _) = lex("```md\na`b``c\n```<error> <error>s");
    assert_eq!(t, vec![Token::CodeBlock, Token::Error, Token::Whitespace, Token::Text, Token::EOF]);
    assert_eq!(sp, vec![0..16, 16..23, 23..24, 24..32, 32..32]);
}

#[test]
fn tokenize_hash_and_backtick_units_in_words() {
    let (t, sp, d) = lex("a#b `c #\nz");
    // `#` before a newline is a unit of text: the newline is not a space.
    assert_eq!(t, vec![Token::Text, Token::Whitespace, Token::Text, Token::Whitespace, Token::Text, Token::EOF]);
    assert_eq!(sp, vec![0..3, 3..4, 4..6, 6..7, 7..10, 10..10]);
    assert!(d.is_empty());
}

#[test]
fn tokenize_reports_invalid_stretches() {
    // Two backticks, an unclosed fence and a lone hash at the end.
    let (t, sp, d) = lex("``x ```ab c");
    assert_eq!(t, vec![Token::Error, Token::Text, Token::Whitespace, Token::Error, Token::Whitespace, Token::Text, Token::EOF]);
    assert_eq!(sp, vec![0..2, 2..3, 3..4, 4..9, 9..10, 10..11, 11..11]);
    assert_eq!(d.len(), 2);
    assert_eq!(d[0].severity, Severity::Error);
    assert_eq!(d[0].message, "invalid token");
    assert_eq!(d[0].labels.len(), 1);
    assert_eq!(d[0].labels[0].style, LabelStyle::Primary);
    assert_eq!(d[0].labels[0].range, 0..2);
    assert_eq!(d[1].labels[0].range, 4..9);

    let (t, sp, d) = lex("```x\nnever closed");
    assert_eq!(t, vec![Token::Error, Token::EOF]);
    assert_eq!(sp, vec![0..17, 17..17]);
    assert_eq!(d.len(), 1);

    let (t, sp, _) = lex("a #");
    assert_eq!(t, vec![Token::Text, Token::Whitespace, Token::Error, Token::EOF]);
    assert_eq!(sp, vec![0..1, 1..2, 2..3, 3..3]);
}

#[test]
fn tokenize_empty_source() {
    let (t, sp, d) = lex("");
    assert_eq!(t, vec![Token::EOF]);
    assert_eq!(sp, vec![0..0]);
    assert!(d.is_empty());
}

#[test]
fn tokenize_multibyte_words_use_byte_spans() {
    let (t, sp, _) = lex("é #ü");
    assert_eq!(t, vec![Token::Text, Token::Whitespace, Token::Text, Token::EOF]);
    assert_eq!(sp, vec![0..2, 2..3, 3..6, 6..6]);
}

#[test]
fn into_diagnostic_marks_the_span() {
    let d = LexerError::Invalid.into_diagnostic(3..7);
    assert_eq!(d.severity, Severity::Error);
    assert_eq!(d.message, "invalid token");
    assert_eq!(d.code, None);
    assert!(d.notes.is_empty());
    assert_eq!(d.labels[0].range, 3..7);
    assert_eq!(d.labels[0].message, "");
}

#[test]
fn cst_lines_quote_the_text() {
    let cst = parse_markdown("# a\n");
    assert_eq!(cst.to_string(), "Heading1 \"# \"\nText \"a\"\nNewline \"\\n\"\nEOF \"\"\n");
}
