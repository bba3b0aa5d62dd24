//! Tokens: what each byte of the source starts, and what is skipped.
use vstd::prelude::*;
use crate::lexer::{
    Span, Token, TokenKind, block_comment_end, lemma_after, lemma_name_end, line_comment_end,
    name_end, names, string_end, tokens_from,
};

verus! {

/// Whether a byte is a given ASCII character.
pub open spec fn is_byte(byte: u8, c: char) -> bool {
    byte == c as u32
}

/// Whether a byte is an ASCII letter.
pub open spec fn is_letter(byte: u8) -> bool {
    'a' as u32 <= byte <= 'z' as u32 || 'A' as u32 <= byte <= 'Z' as u32
}

/// Whether `[from, to)` is a run of letters that no letter goes on.
pub open spec fn is_run(bytes: Seq<u8>, from: int, to: int) -> bool {
    &&& 0 <= from < to <= bytes.len()
    &&& forall|k: int| from <= k < to ==> is_letter(#[trigger] bytes[k])
    &&& to < bytes.len() ==> !is_letter(bytes[to])
}

proof fn lemma_run(bytes: Seq<u8>, from: int, to: int)
    requires
        is_run(bytes, from, to),
    ensures
        name_end(bytes, from) == to,
    decreases to - from,
{
    lemma_name_end(bytes, from);
    let end = name_end(bytes, from);
    assert(is_letter(bytes[from]));
    if end < to {
        assert(is_letter(bytes[end]));
        assert(names(bytes[end]));
    }
    if end > to {
        assert(names(bytes[to]));
    }
}

/// A run of letters is one token, a command with the backslash before it and a word without one.
pub proof fn law_letters_make_one_token(bytes: Seq<u8>, from: int, to: int)
    requires
        is_run(bytes, from, to),
    ensures
        tokens_from(bytes, from) == seq![
            Token {
                kind: TokenKind::Identifier,
                span: Span { start: from as usize, end: to as usize },
            },
        ] + tokens_from(bytes, to),
        from > 0 && is_byte(bytes[from - 1], '\\') ==> tokens_from(bytes, from - 1) == seq![
            Token {
                kind: TokenKind::Command,
                span: Span { start: (from - 1) as usize, end: to as usize },
            },
        ] + tokens_from(bytes, to),
{
    lemma_run(bytes, from, to);
    assert(is_letter(bytes[from]));
    lemma_after(bytes, from);
    if from > 0 && is_byte(bytes[from - 1], '\\') {
        lemma_after(bytes, from - 1);
    }
}

/// An equals sign and a brace are tokens of their own.
pub proof fn law_signs_are_tokens(bytes: Seq<u8>, at: int)
    requires
        0 <= at < bytes.len(),
    ensures
        ({
            let span = Span { start: at as usize, end: (at + 1) as usize };
            let rest = tokens_from(bytes, at + 1);
            let all = tokens_from(bytes, at);
            &&& is_byte(bytes[at], '=') ==> all == seq![Token { kind: TokenKind::Equals, span }] + rest
            &&& is_byte(bytes[at], '{') ==> all == seq![Token { kind: TokenKind::OpenBrace, span }]
                + rest
            &&& is_byte(bytes[at], '}') ==> all == seq![Token { kind: TokenKind::CloseBrace, span }]
                + rest
        }),
{
    lemma_after(bytes, at);
}

/// Everything else but comments and strings is passed over, byte by byte.
pub proof fn law_everything_else_is_passed_over(bytes: Seq<u8>, at: int)
    requires
        0 <= at < bytes.len(),
        !is_letter(bytes[at]),
        !is_byte(bytes[at], '='),
        !is_byte(bytes[at], '{'),
        !is_byte(bytes[at], '}'),
        !is_byte(bytes[at], '%'),
        !is_byte(bytes[at], '"'),
        is_byte(bytes[at], '\\') && at + 1 < bytes.len() ==> !is_letter(bytes[at + 1]),
    ensures
        tokens_from(bytes, at) == tokens_from(bytes, at + 1),
{
    lemma_after(bytes, at);
}

proof fn lemma_line_end(bytes: Seq<u8>, at: int, end: int)
    requires
        0 <= at <= end <= bytes.len(),
        forall|k: int| at <= k < end ==> !is_byte(#[trigger] bytes[k], '\n'),
        end < bytes.len() ==> is_byte(bytes[end], '\n'),
    ensures
        line_comment_end(bytes, at) == if end < bytes.len() {
            end + 1
        } else {
            end
        },
    decreases end - at,
{
    if at < end {
        assert(!is_byte(bytes[at], '\n'));
        lemma_line_end(bytes, at + 1, end);
    }
}

/// Behind a percent sign the rest of the line is a comment, and scanning goes on with the next one.
pub proof fn law_a_comment_ends_with_its_line(bytes: Seq<u8>, at: int, end: int)
    requires
        0 <= at < end <= bytes.len(),
        is_byte(bytes[at], '%'),
        at + 1 < bytes.len() ==> !is_byte(bytes[at + 1], '{'),
        forall|k: int| at < k < end ==> !is_byte(#[trigger] bytes[k], '\n'),
        end < bytes.len() ==> is_byte(bytes[end], '\n'),
    ensures
        end < bytes.len() ==> tokens_from(bytes, at) == tokens_from(bytes, end + 1),
        end == bytes.len() ==> tokens_from(bytes, at).len() == 0,
{
    lemma_after(bytes, at);
    lemma_line_end(bytes, at + 1, end);
    assert(tokens_from(bytes, bytes.len() as int).len() == 0);
}

/// Whether a block comment ends at `k`.
pub open spec fn ends_comment(bytes: Seq<u8>, k: int) -> bool {
    k + 1 < bytes.len() && is_byte(bytes[k], '%') && is_byte(bytes[k + 1], '}')
}

proof fn lemma_block_end(bytes: Seq<u8>, at: int, end: int)
    requires
        0 <= at <= end <= bytes.len(),
        forall|k: int| at <= k < end ==> !#[trigger] ends_comment(bytes, k),
        end < bytes.len() ==> ends_comment(bytes, end),
    ensures
        block_comment_end(bytes, at) == if end < bytes.len() {
            end + 2
        } else {
            end
        },
    decreases end - at,
{
    if at < end {
        assert(!ends_comment(bytes, at));
        lemma_block_end(bytes, at + 1, end);
    }
}

/// A block comment goes from `%{` to the next `%}`, and without one to the end.
pub proof fn law_a_block_comment_ends_where_it_is_closed(bytes: Seq<u8>, at: int, end: int)
    requires
        0 <= at,
        at + 2 <= end <= bytes.len(),
        is_byte(bytes[at], '%'),
        is_byte(bytes[at + 1], '{'),
        forall|k: int| at + 2 <= k < end ==> !#[trigger] ends_comment(bytes, k),
        end < bytes.len() ==> ends_comment(bytes, end),
    ensures
        end < bytes.len() ==> tokens_from(bytes, at) == tokens_from(bytes, end + 2),
        end == bytes.len() ==> tokens_from(bytes, at).len() == 0,
{
    lemma_after(bytes, at);
    lemma_block_end(bytes, at + 2, end);
    assert(tokens_from(bytes, bytes.len() as int).len() == 0);
}

/// Whether `[at, end)` is the inside of a string: no quote stands in it but behind a backslash, and
/// what a backslash stands before is in it too.
pub open spec fn is_inside(bytes: Seq<u8>, at: int, end: int) -> bool
    decreases end - at,
{
    if at >= end {
        at == end
    } else if is_byte(bytes[at], '\\') {
        at + 2 <= end && is_inside(bytes, at + 2, end)
    } else {
        !is_byte(bytes[at], '"') && is_inside(bytes, at + 1, end)
    }
}

proof fn lemma_inside(bytes: Seq<u8>, at: int, end: int)
    requires
        0 <= at <= end < bytes.len(),
        is_inside(bytes, at, end),
        is_byte(bytes[end], '"'),
    ensures
        string_end(bytes, at) == end + 1,
    decreases end - at,
{
    if at < end {
        if is_byte(bytes[at], '\\') {
            lemma_inside(bytes, at + 2, end);
        } else {
            lemma_inside(bytes, at + 1, end);
        }
    }
}

/// A string makes no tokens: scanning goes on behind the quote that closes it.
pub proof fn law_a_string_makes_no_tokens(bytes: Seq<u8>, at: int, end: int)
    requires
        0 <= at < end < bytes.len(),
        is_byte(bytes[at], '"'),
        is_inside(bytes, at + 1, end),
        is_byte(bytes[end], '"'),
    ensures
        tokens_from(bytes, at) == tokens_from(bytes, end + 1),
{
    lemma_after(bytes, at);
    lemma_inside(bytes, at + 1, end);
}

} // verus!
