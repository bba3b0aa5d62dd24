//! A minimal tokeniser for LilyPond source.
//!
//! It is deliberately shallow: it skips what would confuse a naive scan (comments and string
//! literals) and emits only the tokens that matter to the analysis.
use vstd::prelude::*;

verus! {

/// A half-open byte range `[start, end)` into the source text.
#[derive(Debug, Clone, Copy, PartialEq, Eq, Structural)]
pub struct Span {
    pub start: usize,
    pub end: usize,
}

impl Span {
    pub fn new(start: usize, end: usize) -> (r: Self)
        ensures
            r == (Span { start, end }),
    {
        Self { start, end }
    }

    pub open spec fn has(self, offset: int) -> bool {
        self.start <= offset < self.end
    }

    pub fn contains(&self, offset: usize) -> (r: bool)
        ensures
            r == self.has(offset as int),
    {
        self.start <= offset && offset < self.end
    }
}

#[derive(Debug, Clone, Copy, PartialEq, Eq, Structural)]
pub enum TokenKind {
    /// A bare word, e.g. the `foo` in `foo = ...` (also matches note names).
    Identifier,
    /// A backslash command, e.g. `\foo`. The span covers the whole `\foo`.
    Command,
    /// A single `=`.
    Equals,
    OpenBrace,
    CloseBrace,
}

#[derive(Debug, Clone, Copy, PartialEq, Eq, Structural)]
pub struct Token {
    pub kind: TokenKind,
    pub span: Span,
}

/// Whether a byte may appear in an identifier or command name: an ASCII letter.
pub open spec fn names(byte: u8) -> bool {
    65 <= byte <= 90 || 97 <= byte <= 122
}

/// Just past the run of identifier characters at `at`.
pub open spec fn name_end(bytes: Seq<u8>, at: int) -> int
    decreases bytes.len() - at,
{
    if 0 <= at < bytes.len() && names(bytes[at]) {
        name_end(bytes, at + 1)
    } else {
        at
    }
}

/// Just past the newline at or after `at`, or the end of the input.
pub open spec fn line_comment_end(bytes: Seq<u8>, at: int) -> int
    decreases bytes.len() - at,
{
    if at < 0 || at >= bytes.len() {
        bytes.len() as int
    } else if bytes[at] == 10 {
        at + 1
    } else {
        line_comment_end(bytes, at + 1)
    }
}

/// Just past the `%}` at or after `at`, or the end of the input.
pub open spec fn block_comment_end(bytes: Seq<u8>, at: int) -> int
    decreases bytes.len() - at,
{
    if at < 0 || at >= bytes.len() {
        bytes.len() as int
    } else if bytes[at] == 37 && at + 1 < bytes.len() && bytes[at + 1] == 125 {
        at + 2
    } else {
        block_comment_end(bytes, at + 1)
    }
}

/// Just past the quote that closes the string whose contents start at `at`, or the end of the
/// input. A backslash takes the byte after it along.
pub open spec fn string_end(bytes: Seq<u8>, at: int) -> int
    decreases bytes.len() - at,
{
    if at < 0 || at >= bytes.len() {
        bytes.len() as int
    } else if bytes[at] == 92 {
        if at + 1 < bytes.len() {
            string_end(bytes, at + 2)
        } else {
            bytes.len() as int
        }
    } else if bytes[at] == 34 {
        at + 1
    } else {
        string_end(bytes, at + 1)
    }
}

/// Whether a command name follows the backslash at `at`.
pub open spec fn commands(bytes: Seq<u8>, at: int) -> bool {
    bytes[at] == 92 && at + 1 < bytes.len() && names(bytes[at + 1])
}

/// The token that starts at `at`, if one does.
pub open spec fn token_at(bytes: Seq<u8>, at: int) -> Option<Token> {
    if commands(bytes, at) {
        Some(
            Token {
                kind: TokenKind::Command,
                span: Span { start: at as usize, end: name_end(bytes, at + 1) as usize },
            },
        )
    } else if bytes[at] == 61 {
        Some(
            Token {
                kind: TokenKind::Equals,
                span: Span { start: at as usize, end: (at + 1) as usize },
            },
        )
    } else if bytes[at] == 123 {
        Some(
            Token {
                kind: TokenKind::OpenBrace,
                span: Span { start: at as usize, end: (at + 1) as usize },
            },
        )
    } else if bytes[at] == 125 {
        Some(
            Token {
                kind: TokenKind::CloseBrace,
                span: Span { start: at as usize, end: (at + 1) as usize },
            },
        )
    } else if names(bytes[at]) {
        Some(
            Token {
                kind: TokenKind::Identifier,
                span: Span { start: at as usize, end: name_end(bytes, at) as usize },
            },
        )
    } else {
        None
    }
}

/// Where scanning goes on after what stands at `at`: behind a comment, a string, a token, or the
/// one byte that is none of these.
pub open spec fn after(bytes: Seq<u8>, at: int) -> int {
    if bytes[at] == 37 {
        if at + 1 < bytes.len() && bytes[at + 1] == 123 {
            block_comment_end(bytes, at + 2)
        } else {
            line_comment_end(bytes, at + 1)
        }
    } else if bytes[at] == 34 {
        string_end(bytes, at + 1)
    } else if commands(bytes, at) {
        name_end(bytes, at + 1)
    } else if names(bytes[at]) {
        name_end(bytes, at)
    } else {
        at + 1
    }
}

pub proof fn lemma_name_end(bytes: Seq<u8>, at: int)
    requires
        0 <= at <= bytes.len(),
    ensures
        at <= name_end(bytes, at) <= bytes.len(),
        forall|i: int| at <= i < name_end(bytes, at) ==> names(#[trigger] bytes[i]),
        name_end(bytes, at) < bytes.len() ==> !names(bytes[name_end(bytes, at)]),
    decreases bytes.len() - at,
{
    if at < bytes.len() && names(bytes[at]) {
        lemma_name_end(bytes, at + 1);
    }
}

proof fn lemma_line_comment_end(bytes: Seq<u8>, at: int)
    requires
        0 <= at <= bytes.len(),
    ensures
        at <= line_comment_end(bytes, at) <= bytes.len(),
    decreases bytes.len() - at,
{
    if at < bytes.len() && bytes[at] != 10 {
        lemma_line_comment_end(bytes, at + 1);
    }
}

proof fn lemma_block_comment_end(bytes: Seq<u8>, at: int)
    requires
        0 <= at <= bytes.len(),
    ensures
        at <= block_comment_end(bytes, at) <= bytes.len(),
    decreases bytes.len() - at,
{
    if at < bytes.len() {
        lemma_block_comment_end(bytes, at + 1);
    }
}

proof fn lemma_string_end(bytes: Seq<u8>, at: int)
    requires
        0 <= at <= bytes.len(),
    ensures
        at <= string_end(bytes, at) <= bytes.len(),
    decreases bytes.len() - at,
{
    if at < bytes.len() {
        if at + 2 <= bytes.len() {
            lemma_string_end(bytes, at + 2);
        }
        lemma_string_end(bytes, at + 1);
    }
}

pub proof fn lemma_after(bytes: Seq<u8>, at: int)
    requires
        0 <= at < bytes.len(),
    ensures
        at < after(bytes, at) <= bytes.len(),
{
    lemma_name_end(bytes, at + 1);
    lemma_line_comment_end(bytes, at + 1);
    lemma_string_end(bytes, at + 1);
    if at + 2 <= bytes.len() {
        lemma_block_comment_end(bytes, at + 2);
    }
}

/// The tokens of the input from `at` on.
pub open spec fn tokens_from(bytes: Seq<u8>, at: int) -> Seq<Token>
    decreases bytes.len() - at,
    via tokens_from_decreases
{
    if at < 0 || at >= bytes.len() {
        Seq::empty()
    } else {
        let rest = tokens_from(bytes, after(bytes, at));
        match token_at(bytes, at) {
            Some(token) => seq![token] + rest,
            None => rest,
        }
    }
}

#[via_fn]
proof fn tokens_from_decreases(bytes: Seq<u8>, at: int) {
    if 0 <= at < bytes.len() {
        lemma_after(bytes, at);
    }
}

/// Returns whether `byte` may appear in an identifier or command name.
pub fn is_identifier_char(byte: u8) -> (r: bool)
    ensures
        r == names(byte),
{
    (65 <= byte && byte <= 90) || (97 <= byte && byte <= 122)
}

/// Tokenises `src`, skipping whitespace, comments and string literals.
pub fn tokenise(src: &str) -> (tokens: Vec<Token>)
    ensures
        tokens@ == tokens_from(vstd::utf8::encode_utf8(src@), 0),
{
    let bytes = src.as_bytes();
    let mut tokens: Vec<Token> = Vec::new();
    let mut i: usize = 0;
    assert(tokens@ + tokens_from(bytes@, 0) =~= tokens_from(bytes@, 0));
    while i < bytes.len()
        invariant
            i <= bytes@.len(),
            tokens@ + tokens_from(bytes@, i as int) == tokens_from(bytes@, 0),
        decreases bytes.len() - i,
    {
        let ghost before = tokens@;
        let at: usize = i;
        proof {
            lemma_after(bytes@, at as int);
            lemma_name_end(bytes@, at as int);
            lemma_name_end(bytes@, at + 1);
        }
        let c = bytes[i];
        if c == 37 {
            // Block comment `%{ ... %}` or line comment `% ...`.
            if i + 1 < bytes.len() && bytes[i + 1] == 123 {
                i = skip_block_comment(bytes, i + 2);
            } else {
                i = skip_line_comment(bytes, i + 1);
            }
        } else if c == 34 {
            // String literal; its contents are opaque.
            i = skip_string(bytes, i + 1);
        } else if c == 92 {
            // A backslash command, unless no name follows the backslash.
            if i + 1 < bytes.len() && is_identifier_char(bytes[i + 1]) {
                let end = scan_identifier(bytes, i + 1);
                tokens.push(Token { kind: TokenKind::Command, span: Span::new(i, end) });
                i = end;
            } else {
                i = i + 1;
            }
        } else if c == 61 {
            tokens.push(Token { kind: TokenKind::Equals, span: Span::new(i, i + 1) });
            i = i + 1;
        } else if c == 123 {
            tokens.push(Token { kind: TokenKind::OpenBrace, span: Span::new(i, i + 1) });
            i = i + 1;
        } else if c == 125 {
            tokens.push(Token { kind: TokenKind::CloseBrace, span: Span::new(i, i + 1) });
            i = i + 1;
        } else if is_identifier_char(c) {
            let end = scan_identifier(bytes, i);
            tokens.push(Token { kind: TokenKind::Identifier, span: Span::new(i, end) });
            i = end;
        } else {
            // Whitespace and anything else without a token.
            i = i + 1;
        }
        proof {
            let rest = tokens_from(bytes@, i as int);
            assert(i == after(bytes@, at as int));
            match token_at(bytes@, at as int) {
                Some(token) => {
                    assert(tokens@ == before.push(token));
                    assert(tokens@ + rest =~= before + (seq![token] + rest));
                },
                None => {
                    assert(tokens@ == before);
                },
            }
        }
    }
    assert(tokens@ + tokens_from(bytes@, i as int) =~= tokens@);
    tokens
}

/// Returns the byte offset just past the run of identifier characters that starts at `start`.
pub fn scan_identifier(bytes: &[u8], start: usize) -> (r: usize)
    requires
        start <= bytes@.len(),
    ensures
        r == name_end(bytes@, start as int),
        start <= r <= bytes@.len(),
{
    let mut i: usize = start;
    while i < bytes.len() && is_identifier_char(bytes[i])
        invariant
            start <= i <= bytes@.len(),
            name_end(bytes@, start as int) == name_end(bytes@, i as int),
        decreases bytes.len() - i,
    {
        i = i + 1;
    }
    i
}

/// Skips to just past the next newline (or end of input).
pub fn skip_line_comment(bytes: &[u8], from: usize) -> (r: usize)
    requires
        from <= bytes@.len(),
    ensures
        r == line_comment_end(bytes@, from as int),
        from <= r <= bytes@.len(),
{
    let mut i: usize = from;
    while i < bytes.len()
        invariant
            from <= i <= bytes@.len(),
            line_comment_end(bytes@, from as int) == line_comment_end(bytes@, i as int),
        decreases bytes.len() - i,
    {
        if bytes[i] == 10 {
            return i + 1;
        }
        i = i + 1;
    }
    i
}

/// Skips to just past the closing `%}` (or end of input). `from` is the offset after the opening
/// `%{`.
pub fn skip_block_comment(bytes: &[u8], from: usize) -> (r: usize)
    requires
        from <= bytes@.len(),
    ensures
        r == block_comment_end(bytes@, from as int),
        from <= r <= bytes@.len(),
{
    let mut i: usize = from;
    while i < bytes.len()
        invariant
            from <= i <= bytes@.len(),
            block_comment_end(bytes@, from as int) == block_comment_end(bytes@, i as int),
        decreases bytes.len() - i,
    {
        if bytes[i] == 37 && i + 1 < bytes.len() && bytes[i + 1] == 125 {
            return i + 2;
        }
        i = i + 1;
    }
    i
}

/// Skips to just past the closing `"` (or end of input). Honours `\"` escapes. `from` is the
/// offset after the opening quote.
pub fn skip_string(bytes: &[u8], from: usize) -> (r: usize)
    requires
        from <= bytes@.len(),
    ensures
        r == string_end(bytes@, from as int),
        from <= r <= bytes@.len(),
{
    let mut i: usize = from;
    while i < bytes.len()
        invariant
            from <= i <= bytes@.len(),
            string_end(bytes@, from as int) == string_end(bytes@, i as int),
        decreases bytes.len() - i,
    {
        if bytes[i] == 92 {
            if bytes.len() - i < 2 {
                return bytes.len();
            }
            i = i + 2;
        } else if bytes[i] == 34 {
            return i + 1;
        } else {
            i = i + 1;
        }
    }
    i
}

/// Whether `token` is a token of its kind in `bytes`: in bounds, spelled as the kind is, and a
/// name as long as it can be.
pub open spec fn token_fits(bytes: Seq<u8>, token: Token) -> bool {
    let start = token.span.start as int;
    let end = token.span.end as int;
    &&& 0 <= start < end <= bytes.len()
    &&& match token.kind {
        TokenKind::Equals => end == start + 1 && bytes[start] == 61,
        TokenKind::OpenBrace => end == start + 1 && bytes[start] == 123,
        TokenKind::CloseBrace => end == start + 1 && bytes[start] == 125,
        TokenKind::Identifier => {
            &&& forall|i: int| start <= i < end ==> names(#[trigger] bytes[i])
            &&& end < bytes.len() ==> !names(bytes[end])
        },
        TokenKind::Command => {
            &&& bytes[start] == 92
            &&& end > start + 1
            &&& forall|i: int| start < i < end ==> names(#[trigger] bytes[i])
            &&& end < bytes.len() ==> !names(bytes[end])
        },
    }
}

/// Every token is spelled as its kind says and lies at or after `at`, and the tokens follow one
/// another without overlapping.
pub proof fn law_tokens_are_in_order(bytes: Seq<u8>, at: int)
    requires
        0 <= at <= bytes.len(),
        bytes.len() <= usize::MAX,
    ensures
        forall|i: int|
            0 <= i < tokens_from(bytes, at).len() ==> {
                &&& token_fits(bytes, #[trigger] tokens_from(bytes, at)[i])
                &&& at <= tokens_from(bytes, at)[i].span.start
            },
        forall|i: int, j: int|
            0 <= i < j < tokens_from(bytes, at).len() ==> (#[trigger] tokens_from(
                bytes,
                at,
            )[i]).span.end <= (#[trigger] tokens_from(bytes, at)[j]).span.start,
    decreases bytes.len() - at,
{
    if at < bytes.len() {
        lemma_after(bytes, at);
        lemma_name_end(bytes, at);
        lemma_name_end(bytes, at + 1);
        law_tokens_are_in_order(bytes, after(bytes, at));
        match token_at(bytes, at) {
            Some(token) => {
                assert(token_fits(bytes, token));
                assert(token.span.end <= after(bytes, at));
            },
            None => {},
        }
    }
}

} // verus!
