//! Texinfo markup, as docstrings use it, turned into Markdown.
use vstd::prelude::*;
use vstd::string::{StrSliceExecFns, StringExecFns};
use crate::finding::first_from;
use crate::text::{chars_of, same};

verus! {

/// Which characters of a text are a given one.
pub open spec fn is_char(text: Seq<char>, c: char) -> spec_fn(int) -> bool {
    |k: int| text[k] == c
}

/// Whether `c` is an ASCII letter or digit.
pub open spec fn word_char(c: char) -> bool {
    'a' <= c <= 'z' || 'A' <= c <= 'Z' || '0' <= c <= '9'
}

/// How many letters and digits `text` holds from `from` on.
pub open spec fn word_len(text: Seq<char>, from: int) -> nat
    decreases text.len() - from,
{
    if 0 <= from < text.len() && word_char(text[from]) {
        1 + word_len(text, from + 1)
    } else {
        0
    }
}

/// Whether an escaped character stands at `at`: `@@`, `@{` or `@}`.
pub open spec fn escapes(text: Seq<char>, at: int) -> bool {
    0 <= at && at + 1 < text.len() && text[at] == '@' && (text[at + 1] == '@' || text[at + 1] == '{'
        || text[at + 1] == '}')
}

/// How far the brace that closes the group at `depth` stands behind `from`, if the braces balance.
/// An escaped brace is no brace of a group.
pub open spec fn group_len(text: Seq<char>, from: int, depth: nat) -> Option<nat>
    decreases text.len() - from,
{
    if from < 0 || from >= text.len() || depth == 0 {
        None
    } else if escapes(text, from) {
        match group_len(text, from + 2, depth) {
            Some(n) => Some(n + 2),
            None => None,
        }
    } else if text[from] == '}' && depth == 1 {
        Some(0)
    } else {
        let deeper: nat = if text[from] == '{' {
            depth + 1
        } else if text[from] == '}' {
            (depth - 1) as nat
        } else {
            depth
        };
        match group_len(text, from + 1, deeper) {
            Some(n) => Some(n + 1),
            None => None,
        }
    }
}

/// The contents of a command, marked up in Markdown as the command says.
pub open spec fn marked_up(command: Seq<char>, inner: Seq<char>) -> Seq<char> {
    let around = markup_for(command);
    around + inner + around
}

/// What Markdown writes around the contents of a command.
pub open spec fn markup_for(command: Seq<char>) -> Seq<char> {
    if command == "code"@ || command == "samp"@ || command == "file"@ || command == "kbd"@
        || command == "key"@ {
        "`"@
    } else if command == "var"@ || command == "emph"@ || command == "i"@ {
        "*"@
    } else if command == "bold"@ || command == "b"@ || command == "strong"@ {
        "**"@
    } else {
        ""@
    }
}

/// Texinfo as Markdown. An escaped character stands for itself; a command with a group marks the
/// group's contents up; one without is left as a word; a lone `@` at the end goes.
pub open spec fn markdown_of(text: Seq<char>) -> Seq<char>
    decreases text.len(),
    via markdown_of_decreases
{
    match first_from(0, text.len() as int, is_char(text, '@')) {
        None => text,
        Some(k) => {
            let before = text.subrange(0, k as int);
            let rest = text.subrange(k + 1, text.len() as int);
            if rest.len() == 0 {
                before
            } else if rest[0] == '@' || rest[0] == '{' || rest[0] == '}' {
                before + seq![rest[0]] + markdown_of(rest.subrange(1, rest.len() as int))
            } else {
                let word = word_len(rest, 0) as int;
                let command = rest.subrange(0, word);
                if word < rest.len() && rest[word] == '{' && group_len(rest, word + 1, 1) is Some {
                    let n = group_len(rest, word + 1, 1)->0;
                    before + marked_up(
                        command,
                        markdown_of(rest.subrange(word + 1, word + 1 + n)),
                    ) + markdown_of(rest.subrange(word + 2 + n, rest.len() as int))
                } else {
                    before + command + markdown_of(rest.subrange(word, rest.len() as int))
                }
            }
        },
    }
}

#[via_fn]
proof fn markdown_of_decreases(text: Seq<char>) {
    lemma_conversion_shrinks(text);
}

/// What remains to convert is shorter than the text.
pub proof fn lemma_conversion_shrinks(text: Seq<char>)
    ensures
        first_from(0, text.len() as int, is_char(text, '@')) matches Some(k) ==> {
            let rest = text.subrange(k + 1, text.len() as int);
            let word = word_len(rest, 0) as int;
            &&& k < text.len()
            &&& 0 <= word <= rest.len()
            &&& rest.len() < text.len()
            &&& word < rest.len() ==> (group_len(rest, word + 1, 1) matches Some(n) ==> word + 2
                + n <= rest.len())
        },
{
    lemma_first_char(text, 0, '@');
    match first_from(0, text.len() as int, is_char(text, '@')) {
        Some(k) => {
            let rest = text.subrange(k + 1, text.len() as int);
            let word = word_len(rest, 0) as int;
            lemma_word_len(rest, 0);
            if word < rest.len() {
                lemma_group_len(rest, word + 1, 1);
            }
        },
        None => {},
    }
}

/// The first place of a character holds it.
proof fn lemma_first_char(text: Seq<char>, from: int, c: char)
    requires
        0 <= from,
    ensures
        match first_from(from, text.len() as int, is_char(text, c)) {
            Some(k) => text.len() <= usize::MAX ==> from <= k < text.len() && text[k as int] == c
                && forall|j: int| from <= j < k ==> text[j] != c,
            None => forall|j: int| from <= j < text.len() ==> text[j] != c,
        },
    decreases text.len() - from,
{
    if from < text.len() && text[from] != c {
        lemma_first_char(text, from + 1, c);
    }
}

proof fn lemma_word_len(text: Seq<char>, from: int)
    requires
        0 <= from <= text.len(),
    ensures
        from + word_len(text, from) <= text.len(),
        forall|j: int| from <= j < from + word_len(text, from) ==> word_char(#[trigger] text[j]),
    decreases text.len() - from,
{
    if from < text.len() && word_char(text[from]) {
        lemma_word_len(text, from + 1);
    }
}

proof fn lemma_group_len(text: Seq<char>, from: int, depth: nat)
    requires
        0 <= from <= text.len(),
    ensures
        group_len(text, from, depth) matches Some(n) ==> from + n < text.len() && text[from + n]
            == '}',
    decreases text.len() - from,
{
    if from < text.len() && depth > 0 && escapes(text, from) {
        lemma_group_len(text, from + 2, depth);
    } else if from < text.len() && depth > 0 && !(text[from] == '}' && depth == 1) {
        let deeper: nat = if text[from] == '{' {
            depth + 1
        } else if text[from] == '}' {
            (depth - 1) as nat
        } else {
            depth
        };
        lemma_group_len(text, from + 1, deeper);
    }
}

/// The length of a brace group's contents, from just behind its opening brace up to its matching
/// close. `None` if the braces don't balance, which leaves the text alone rather than swallowing
/// the rest of it.
fn group_end(chars: &Vec<char>, from: usize) -> (r: Option<usize>)
    requires
        1 <= from <= chars@.len(),
    ensures
        match r {
            Some(n) => group_len(chars@, from as int, 1) == Some(n as nat) && from + n
                < chars@.len(),
            None => group_len(chars@, from as int, 1) is None,
        },
{
    let mut depth: usize = 1;
    let mut i: usize = from;
    while i < chars.len()
        invariant
            1 <= from <= i <= chars@.len(),
            1 <= depth <= i - from + 1,
            match group_len(chars@, i as int, depth as nat) {
                Some(n) => group_len(chars@, from as int, 1) == Some((n + i - from) as nat),
                None => group_len(chars@, from as int, 1) is None,
            },
        decreases chars.len() - i,
    {
        if chars[i] == '@' && chars.len() - i > 1 && (chars[i + 1] == '@' || chars[i + 1] == '{'
            || chars[i + 1] == '}') {
            i = i + 2;
        } else {
            if chars[i] == '{' {
                depth = depth + 1;
            } else if chars[i] == '}' {
                if depth == 1 {
                    return Some(i - from);
                }
                depth = depth - 1;
            }
            i = i + 1;
        }
    }
    None
}

/// What Markdown writes around the contents of a command.
fn markup(command: &str) -> (r: &'static str)
    ensures
        r@ == markup_for(command@),
{
    if same(command, "code") || same(command, "samp") || same(command, "file") || same(
        command,
        "kbd",
    ) || same(command, "key") {
        "`"
    } else if same(command, "var") || same(command, "emph") || same(command, "i") {
        "*"
    } else if same(command, "bold") || same(command, "b") || same(command, "strong") {
        "**"
    } else {
        ""
    }
}

/// Converts a Texinfo docstring to Markdown: `@var{x}` and `@emph{x}` become *x*, `@code{x}` and
/// friends become `` `x` ``, `@bold{x}` becomes **x**, and any other `@command{…}` keeps its
/// contents unadorned. `@@`, `@{` and `@}` are escapes for the three reserved characters.
///
/// It handles the inline markup that appears in docstrings, not Texinfo's block structure.
pub fn texinfo_to_markdown(text: &str) -> (r: String)
    ensures
        r@ == markdown_of(text@),
    decreases text@.len(),
{
    let chars = chars_of(text);
    let len = chars.len();
    let ghost fits = is_char(text@, '@');
    let mut k: usize = 0;
    while k < len && chars[k] != '@'
        invariant
            chars@ == text@,
            len == chars@.len(),
            k <= len,
            fits == is_char(text@, '@'),
            first_from(0, text@.len() as int, fits) == first_from(
                k as int,
                text@.len() as int,
                fits,
            ),
        decreases len - k,
    {
        k = k + 1;
    }
    if k == len {
        return text.to_string();
    }
    proof {
        lemma_conversion_shrinks(text@);
    }
    let mut out = text.substring_char(0, k).to_string();
    let rest = text.substring_char(k + 1, len);
    let ghost before = out@;
    let rest_chars = chars_of(rest);
    let n = rest_chars.len();
    if n == 0 {
        return out;
    }
    let first = rest_chars[0];
    if first == '@' || first == '{' || first == '}' {
        let one = rest.substring_char(0, 1);
        assert(one@ =~= seq![rest@[0]]);
        out.append(one);
        out.append(texinfo_to_markdown(rest.substring_char(1, n)).as_str());
        return out;
    }
    let mut word: usize = 0;
    while word < n && is_word_char(rest_chars[word])
        invariant
            rest_chars@ == rest@,
            n == rest@.len(),
            word <= n,
            word_len(rest@, 0) == word + word_len(rest@, word as int),
        decreases n - word,
    {
        word = word + 1;
    }
    let command = rest.substring_char(0, word);
    let group = if word < n && rest_chars[word] == '{' {
        group_end(&rest_chars, word + 1)
    } else {
        None
    };
    match group {
        Some(inside) => {
            let around = markup(command);
            let inner = texinfo_to_markdown(rest.substring_char(word + 1, word + 1 + inside));
            let tail = texinfo_to_markdown(rest.substring_char(word + 2 + inside, n));
            out.append(around);
            out.append(inner.as_str());
            out.append(around);
            out.append(tail.as_str());
            assert(out@ =~= before + marked_up(command@, inner@) + tail@);
        },
        None => {
            // A bare `@command` with no braces: nothing to wrap, so the `@` goes.
            out.append(command);
            out.append(texinfo_to_markdown(rest.substring_char(word, n)).as_str());
        },
    }
    out
}

fn is_word_char(c: char) -> (r: bool)
    ensures
        r == word_char(c),
{
    ('a' <= c && c <= 'z') || ('A' <= c && c <= 'Z') || ('0' <= c && c <= '9')
}

/// Text without an `@` converts to itself.
pub proof fn law_plain_text_is_kept(text: Seq<char>)
    requires
        !text.contains('@'),
    ensures
        markdown_of(text) == text,
{
    lemma_conversion_shrinks(text);
    lemma_first_char(text, 0, '@');
    match first_from(0, text.len() as int, is_char(text, '@')) {
        Some(k) => {
            lemma_first_hit(text, 0, '@');
        },
        None => {},
    }
}

/// A character that is found somewhere is in the text.
proof fn lemma_first_hit(text: Seq<char>, from: int, c: char)
    requires
        0 <= from,
        first_from(from, text.len() as int, is_char(text, c)) is Some,
    ensures
        text.contains(c),
    decreases text.len() - from,
{
    if from < text.len() && text[from] != c {
        lemma_first_hit(text, from + 1, c);
    } else {
        assert(text[from] == c);
    }
}

/// Each escape of a reserved character, between plain texts, converts to that character.
pub proof fn law_escapes_decode(before: Seq<char>, c: char, after: Seq<char>)
    requires
        !before.contains('@'),
        !after.contains('@'),
        c == '@' || c == '{' || c == '}',
        before.len() < usize::MAX,
    ensures
        markdown_of(before + seq!['@', c] + after) == before + seq![c] + after,
{
    let text = before + seq!['@', c] + after;
    let n = text.len() as int;
    let at = before.len() as int;
    assert forall|j: int| 0 <= j < at implies text[j] != '@' by {
        assert(text[j] == before[j]);
        assert(before.contains(before[j]));
    }
    assert(text[at] == '@');
    lemma_first_place(text, 0, at, '@');
    let rest = text.subrange(at + 1, n);
    assert(text.subrange(0, at) =~= before);
    assert(rest =~= seq![c] + after);
    assert(rest.subrange(1, rest.len() as int) =~= after);
    law_plain_text_is_kept(after);
    assert(markdown_of(text) == before + seq![c] + after);
}

pub proof fn lemma_first_place(text: Seq<char>, from: int, at: int, c: char)
    requires
        0 <= from <= at < text.len(),
        at <= usize::MAX,
        text[at] == c,
        forall|j: int| from <= j < at ==> text[j] != c,
    ensures
        first_from(from, text.len() as int, is_char(text, c)) == Some(at as usize),
    decreases at - from,
{
    if from < at {
        lemma_first_place(text, from + 1, at, c);
    }
}

/// Whether `text` holds an escaped `@`.
pub open spec fn escapes_at(text: Seq<char>) -> bool {
    exists|i: int| 0 <= i < text.len() - 1 && #[trigger] text[i] == '@' && text[i + 1] == '@'
}

/// A part of a text that escapes no `@` escapes none either.
proof fn lemma_part_escapes_none(text: Seq<char>, from: int, to: int)
    requires
        !escapes_at(text),
        0 <= from <= to <= text.len(),
    ensures
        !escapes_at(text.subrange(from, to)),
{
    let part = text.subrange(from, to);
    if escapes_at(part) {
        let i = choose|i: int|
            0 <= i < part.len() - 1 && #[trigger] part[i] == '@' && part[i + 1] == '@';
        assert(text[from + i] == '@' && text[from + i + 1] == '@');
    }
}

proof fn lemma_absent_concat(a: Seq<char>, b: Seq<char>, c: char)
    requires
        !a.contains(c),
        !b.contains(c),
    ensures
        !(a + b).contains(c),
{
    assert forall|i: int| 0 <= i < (a + b).len() implies (a + b)[i] != c by {
        if i < a.len() {
            assert(a.contains(a[i]));
        } else {
            assert(b.contains(b[i - a.len()]));
        }
    }
}

/// No `@` survives the conversion of a text that does not escape one, and so no markup command
/// does.
pub proof fn law_no_markup_survives(text: Seq<char>)
    requires
        !escapes_at(text),
        text.len() <= usize::MAX,
    ensures
        !markdown_of(text).contains('@'),
    decreases text.len(),
{
    lemma_conversion_shrinks(text);
    lemma_first_char(text, 0, '@');
    match first_from(0, text.len() as int, is_char(text, '@')) {
        None => {},
        Some(k) => {
            let before = text.subrange(0, k as int);
            let rest = text.subrange(k + 1, text.len() as int);
            assert(!before.contains('@'));
            if rest.len() > 0 {
                assert(text[k as int] == '@');
                assert(rest[0] == text[k + 1]);
                lemma_part_escapes_none(text, k + 1, text.len() as int);
                if rest[0] == '{' || rest[0] == '}' {
                    let tail = rest.subrange(1, rest.len() as int);
                    lemma_part_escapes_none(rest, 1, rest.len() as int);
                    law_no_markup_survives(tail);
                    assert(!seq![rest[0]].contains('@'));
                    lemma_absent_concat(before, seq![rest[0]], '@');
                    lemma_absent_concat(before + seq![rest[0]], markdown_of(tail), '@');
                } else {
                    let word = word_len(rest, 0) as int;
                    let command = rest.subrange(0, word);
                    lemma_word_len(rest, 0);
                    assert forall|j: int| 0 <= j < command.len() implies command[j] != '@' by {
                        assert(word_char(rest[j]));
                    }
                    if word < rest.len() && rest[word] == '{' && group_len(rest, word + 1, 1)
                        is Some {
                        let n = group_len(rest, word + 1, 1)->0;
                        let body = rest.subrange(word + 1, word + 1 + n);
                        let tail = rest.subrange(word + 2 + n, rest.len() as int);
                        lemma_part_escapes_none(rest, word + 1, word + 1 + n);
                        lemma_part_escapes_none(rest, word + 2 + n, rest.len() as int);
                        law_no_markup_survives(body);
                        law_no_markup_survives(tail);
                        let around = markup_for(command);
                        reveal_strlit("`");
                        reveal_strlit("*");
                        reveal_strlit("**");
                        reveal_strlit("");
                        assert(!around.contains('@'));
                        lemma_absent_concat(around, markdown_of(body), '@');
                        lemma_absent_concat(around + markdown_of(body), around, '@');
                        lemma_absent_concat(before, marked_up(command, markdown_of(body)), '@');
                        lemma_absent_concat(
                            before + marked_up(command, markdown_of(body)),
                            markdown_of(tail),
                            '@',
                        );
                    } else {
                        let tail = rest.subrange(word, rest.len() as int);
                        lemma_part_escapes_none(rest, word, rest.len() as int);
                        law_no_markup_survives(tail);
                        lemma_absent_concat(before, command, '@');
                        lemma_absent_concat(before + command, markdown_of(tail), '@');
                    }
                }
            }
        },
    }
}

} // verus!
