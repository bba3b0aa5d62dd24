//! What is being typed at an offset, read straight from the text.
//!
//! The point of asking is to complete what is not finished, and so very likely not a command yet
//! that a syntax tree could show.
use vstd::prelude::*;
use vstd::string::StrSliceExecFns;
use vstd::utf8::*;
use crate::finding::last_below;
use crate::line_struct::Span;
use crate::text::{can_cut, chars_of, piece, same, slice};

verus! {

/// Whether a character is a letter or a number, as Unicode has it.
pub uninterp spec fn alphanumeric(c: char) -> bool;

/// The letters and digits of ASCII.
pub open spec fn ascii_alphanumeric(c: char) -> bool {
    ('a' <= c && c <= 'z') || ('A' <= c && c <= 'Z') || ('0' <= c && c <= '9')
}

/// `char::is_alphanumeric`: whether Unicode counts a character among the letters or the numbers. Of
/// the ASCII characters these are the letters and the digits.
#[verifier::external_body]
fn is_alphanumeric(c: char) -> (r: bool)
    ensures
        r == alphanumeric(c),
        (c as u32) < 128 ==> r == ascii_alphanumeric(c),
{
    c.is_alphanumeric()
}

/// Whether a character can stand in the name of a command.
pub open spec fn name_char(c: char) -> bool {
    alphanumeric(c) || c == '-'
}

/// The text before an offset, where the offset is one of a character.
pub open spec fn before_offset(src: Seq<char>, offset: int) -> Option<Seq<char>> {
    if can_cut(src, 0, offset) {
        Some(piece(src, 0, offset))
    } else {
        None
    }
}

fn text_before(src: &str, offset: usize) -> (r: Option<&str>)
    ensures
        match r {
            Some(text) => before_offset(src@, offset as int) == Some(text@),
            None => before_offset(src@, offset as int) is None,
        },
{
    proof {
        encode_utf8_valid_utf8(src@);
        is_char_boundary_start_end_of_seq(encode_utf8(src@));
    }
    if src.is_char_boundary(offset) {
        Some(slice(src, 0, offset))
    } else {
        None
    }
}

/// Which characters of a text cannot stand in a name.
pub open spec fn breaks_name(text: Seq<char>) -> spec_fn(int) -> bool {
    |k: int| !name_char(text[k])
}

/// The word with its backslash that ends at an offset, with only name characters in it.
pub open spec fn typed_word(src: Seq<char>, offset: usize) -> Option<Span> {
    match before_offset(src, offset as int) {
        Some(text) => match last_below(text.len() as int, breaks_name(text)) {
            Some(k) => if text[k as int] == '\\' {
                Some(
                    Span {
                        start: encode_utf8(text.subrange(0, k as int)).len() as usize,
                        end: offset,
                    },
                )
            } else {
                None
            },
            None => None,
        },
        None => None,
    }
}

/// The span of the `\word` that the cursor is in the middle of writing: from a backslash to
/// `offset`, with only name characters between. `None` when the cursor is anywhere else.
pub fn word_being_typed(src: &str, offset: usize) -> (r: Option<Span>)
    ensures
        r == typed_word(src@, offset),
{
    match text_before(src, offset) {
        Some(text) => {
            let chars = chars_of(text);
            let ghost fits = breaks_name(text@);
            let mut k: usize = chars.len();
            while k > 0
                invariant
                    chars@ == text@,
                    k <= chars@.len(),
                    before_offset(src@, offset as int) == Some(text@),
                    fits == breaks_name(text@),
                    last_below(text@.len() as int, fits) == last_below(k as int, fits),
                decreases k,
            {
                let c = chars[k - 1];
                if !(is_alphanumeric(c) || c == '-') {
                    assert(fits(k - 1));
                    if c != '\\' {
                        return None;
                    }
                    let start = text.substring_char(0, k - 1).as_bytes().len();
                    return Some(Span::new(start, offset));
                }
                k = k - 1;
            }
            None
        },
        None => None,
    }
}

pub open spec fn ascii_blank(c: char) -> bool {
    c == ' ' || c == '\t' || c == '\n' || c == '\r' || c as u32 == 12
}

/// How many characters of a text are left once the ASCII white space at its end is gone.
pub open spec fn unblanked(text: Seq<char>) -> nat
    decreases text.len(),
{
    if text.len() > 0 && ascii_blank(text.last()) {
        unblanked(text.drop_last())
    } else {
        text.len()
    }
}

/// Whether `text` ends in the word `keyword`, and not in a longer one.
pub open spec fn ends_in(text: Seq<char>, keyword: Seq<char>) -> bool {
    let at = text.len() - keyword.len();
    &&& at >= 0
    &&& text.subrange(at, text.len() as int) == keyword
    &&& at > 0 ==> !name_char(text[at - 1]) && text[at - 1] != '\\'
}

/// The keyword that stands right before an offset, waiting for its first argument.
pub open spec fn awaiting(src: Seq<char>, offset: int) -> Option<Seq<char>> {
    match before_offset(src, offset) {
        Some(before) => {
            let text = before.subrange(0, unblanked(before) as int);
            if ends_in(text, "\\new"@) {
                Some("new"@)
            } else if ends_in(text, "\\context"@) {
                Some("context"@)
            } else if ends_in(text, "\\lyricsto"@) {
                Some("lyricsto"@)
            } else if ends_in(text, "\\change"@) {
                Some("change"@)
            } else {
                None
            }
        },
        None => None,
    }
}

/// Whether the first `n` characters of `text` end in the word `keyword`, and not in a longer one.
fn is_ending(text: &str, chars: &Vec<char>, n: usize, keyword: &str) -> (r: bool)
    requires
        chars@ == text@,
        n <= chars@.len(),
    ensures
        r == ends_in(text@.subrange(0, n as int), keyword@),
{
    let len = keyword.unicode_len();
    if len > n {
        return false;
    }
    let at = n - len;
    assert(text@.subrange(0, n as int).subrange(at as int, n as int) =~= text@.subrange(
        at as int,
        n as int,
    ));
    if !same(text.substring_char(at, n), keyword) {
        return false;
    }
    if at == 0 {
        return true;
    }
    let c = chars[at - 1];
    !(is_alphanumeric(c) || c == '-') && c != '\\'
}

/// The name (without its backslash) of `\new`, `\context`, `\lyricsto` or `\change` immediately
/// before `offset`, with nothing but white space between the keyword and the cursor.
pub fn keyword_awaiting_its_first_argument(src: &str, offset: usize) -> (r: Option<&'static str>)
    ensures
        match r {
            Some(keyword) => awaiting(src@, offset as int) == Some(keyword@),
            None => awaiting(src@, offset as int) is None,
        },
{
    match text_before(src, offset) {
        Some(before) => {
            let chars = chars_of(before);
            let mut n: usize = chars.len();
            assert(before@.subrange(0, before@.len() as int) =~= before@);
            while n > 0 && (chars[n - 1] == ' ' || chars[n - 1] == '\t' || chars[n - 1] == '\n'
                || chars[n - 1] == '\r' || chars[n - 1] as u32 == 12)
                invariant
                    chars@ == before@,
                    n <= chars@.len(),
                    unblanked(before@) == unblanked(before@.subrange(0, n as int)),
                decreases n,
            {
                assert(before@.subrange(0, n as int).drop_last() =~= before@.subrange(0, n - 1));
                n = n - 1;
            }
            assert(unblanked(before@) == n);
            if is_ending(before, &chars, n, "\\new") {
                Some("new")
            } else if is_ending(before, &chars, n, "\\context") {
                Some("context")
            } else if is_ending(before, &chars, n, "\\lyricsto") {
                Some("lyricsto")
            } else if is_ending(before, &chars, n, "\\change") {
                Some("change")
            } else {
                None
            }
        },
        None => None,
    }
}

} // verus!
