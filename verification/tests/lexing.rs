use ly_lsp::lexer::{TokenKind, tokenise};

/// Convenience: collect (kind, matched text) pairs for assertions.
fn lex(src: &str) -> Vec<(TokenKind, &str)> {
    tokenise(src)
        .into_iter()
        .map(|t| (t.kind, &src[t.span.start..t.span.end]))
        .collect()
}

#[test]
fn definition_and_reference() {
    assert_eq!(
        lex("foo = { c d e }\n\\foo"),
        vec![
            (TokenKind::Identifier, "foo"),
            (TokenKind::Equals, "="),
            (TokenKind::OpenBrace, "{"),
            (TokenKind::Identifier, "c"),
            (TokenKind::Identifier, "d"),
            (TokenKind::Identifier, "e"),
            (TokenKind::CloseBrace, "}"),
            (TokenKind::Command, "\\foo"),
        ]
    );
}

#[test]
fn line_comment_is_skipped() {
    assert_eq!(lex("a % foo = bar \\baz\nb"), vec![(TokenKind::Identifier, "a"), (TokenKind::Identifier, "b")]);
}

#[test]
fn block_comment_is_skipped() {
    assert_eq!(lex("a %{ foo = \\bar\n still in %} b"), vec![(TokenKind::Identifier, "a"), (TokenKind::Identifier, "b")]);
}

#[test]
fn string_contents_are_opaque() {
    assert_eq!(
        lex(r#"title = "a = \foo { }""#),
        vec![(TokenKind::Identifier, "title"), (TokenKind::Equals, "=")]
    );
}

#[test]
fn escaped_quote_in_string() {
    assert_eq!(lex(r#""he said \"hi\"" x"#), vec![(TokenKind::Identifier, "x")]);
}

#[test]
fn non_command_backslashes() {
    assert!(lex(r"\\ \! \>").is_empty());
}

#[test]
fn command_name_stops_at_non_alpha() {
    assert_eq!(lex(r"\foo123"), vec![(TokenKind::Command, "\\foo")]);
}
