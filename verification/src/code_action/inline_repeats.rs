//! The "unfold repeat" refactoring.
//!
//! With the cursor in a `\repeat <kind> <n>` header, the body becomes `n` literal copies and the
//! wrapper goes, with `\volta` and `\alternative` distributed over the copies. Durations and octaves
//! are made explicit exactly where a note's predecessor in the output differs from its predecessor
//! in the folded reading.
use vstd::prelude::*;
use vstd::string::StringExecFns;
use vstd::utf8::*;
use crate::code_action::note_state::{
    leading_note, note_leading, octave_edit, octave_fix, octave_respelling, respelling,
};
use crate::code_action::splice::{
    Splice, SpliceView, apply_splices, latest_first, splice_views, spliced,
};
use crate::code_action::{ActionKind, CodeAction, Offer, Resolved, ResolvedView};
use crate::command::reader::{block_kind, is_block};
use crate::command::{Arg, CommandCall, first_music, header_end};
use crate::document::Document;
use crate::finding::{first_from, kept, lemma_first_from, lemma_kept};
use crate::line_struct::{Span, line_start, range_between, start_of_line, within};
use crate::notes::{Duration, Event, Pitch, default_duration, overlaps};
use crate::protocol::{EditView, Range, TextEdit, edit_views};
use crate::syntax::{children_of, parent_of, smallest_from, span_of};
use crate::text::{
    all_white, cut, cut_of, holds, is_blank, leading_white, same, trim, trim_range, trimmed,
    trimmed_range,
};

verus! {

/// The first word among `args`: the kind of a repeat.
pub open spec fn first_word(args: Seq<Arg>) -> Option<Seq<char>>
    decreases args.len(),
{
    if args.len() == 0 {
        None
    } else {
        match args[0] {
            Arg::BareWord { text, .. } => Some(text@),
            _ => first_word(args.drop_first()),
        }
    }
}

/// The first number among `args`: the count of a repeat.
pub open spec fn first_count(args: Seq<Arg>) -> Option<u32>
    decreases args.len(),
{
    if args.len() == 0 {
        None
    } else {
        match args[0] {
            Arg::Count { value, .. } => Some(value),
            _ => first_count(args.drop_first()),
        }
    }
}

/// The first list of numbers among `args`: the repeats a volta plays on.
pub open spec fn first_numbers(args: Seq<Arg>) -> Option<Seq<u32>>
    decreases args.len(),
{
    if args.len() == 0 {
        None
    } else {
        match args[0] {
            Arg::NumberList { values, .. } => Some(values@),
            _ => first_numbers(args.drop_first()),
        }
    }
}

/// The first `BareWord` argument's text (the repeat kind).
pub fn bare_word(call: &CommandCall) -> (r: Option<&str>)
    ensures
        match r {
            Some(text) => first_word(call.args@) == Some(text@),
            None => first_word(call.args@) is None,
        },
{
    let mut k: usize = 0;
    assert(call.args@.subrange(0, call.args@.len() as int) =~= call.args@);
    while k < call.args.len()
        invariant
            k <= call.args@.len(),
            first_word(call.args@) == first_word(
                call.args@.subrange(k as int, call.args@.len() as int),
            ),
        decreases call.args.len() - k,
    {
        assert(call.args@.subrange(k as int, call.args@.len() as int).drop_first()
            =~= call.args@.subrange(k + 1, call.args@.len() as int));
        match &call.args[k] {
            Arg::BareWord { text, .. } => {
                return Some(text.as_str());
            },
            _ => {},
        }
        k = k + 1;
    }
    None
}

/// The first `Count` argument's value (the repeat count).
pub fn count(call: &CommandCall) -> (r: Option<u32>)
    ensures
        r == first_count(call.args@),
{
    let mut k: usize = 0;
    assert(call.args@.subrange(0, call.args@.len() as int) =~= call.args@);
    while k < call.args.len()
        invariant
            k <= call.args@.len(),
            first_count(call.args@) == first_count(
                call.args@.subrange(k as int, call.args@.len() as int),
            ),
        decreases call.args.len() - k,
    {
        assert(call.args@.subrange(k as int, call.args@.len() as int).drop_first()
            =~= call.args@.subrange(k + 1, call.args@.len() as int));
        match &call.args[k] {
            Arg::Count { value, .. } => {
                return Some(*value);
            },
            _ => {},
        }
        k = k + 1;
    }
    None
}

/// Where among a call's arguments the first list of numbers stands.
fn numbers_of(call: &CommandCall) -> (r: Option<&Vec<u32>>)
    ensures
        match r {
            Some(values) => first_numbers(call.args@) == Some(values@),
            None => first_numbers(call.args@) is None,
        },
{
    let mut k: usize = 0;
    assert(call.args@.subrange(0, call.args@.len() as int) =~= call.args@);
    while k < call.args.len()
        invariant
            k <= call.args@.len(),
            first_numbers(call.args@) == first_numbers(
                call.args@.subrange(k as int, call.args@.len() as int),
            ),
        decreases call.args.len() - k,
    {
        assert(call.args@.subrange(k as int, call.args@.len() as int).drop_first()
            =~= call.args@.subrange(k + 1, call.args@.len() as int));
        match &call.args[k] {
            Arg::NumberList { values, .. } => {
                return Some(values);
            },
            _ => {},
        }
        k = k + 1;
    }
    None
}

fn lists(values: &Vec<u32>, r: u32) -> (b: bool)
    ensures
        b == values@.contains(r),
{
    let mut k: usize = 0;
    while k < values.len()
        invariant
            k <= values@.len(),
            forall|j: int| 0 <= j < k ==> values@[j] != r,
        decreases values.len() - k,
    {
        if values[k] == r {
            assert(values@[k as int] == r);
            return true;
        }
        k = k + 1;
    }
    false
}

/// Whether a volta plays on repeat `r`: its number list holds `r`.
pub open spec fn plays(volta: CommandCall, r: u32) -> bool {
    match first_numbers(volta.args@) {
        Some(values) => values.contains(r),
        None => false,
    }
}

/// Whether the `\volta` call plays on repeat `r`.
pub fn plays_on(volta: &CommandCall, r: u32) -> (b: bool)
    ensures
        b == plays(*volta, r),
{
    match numbers_of(volta) {
        Some(values) => lists(values, r),
        None => false,
    }
}

/// The repeat numbers a volta lists.
pub open spec fn listed(volta: CommandCall) -> Seq<u32> {
    match first_numbers(volta.args@) {
        Some(values) => values,
        None => Seq::empty(),
    }
}

/// The repeat numbers listed by a `\volta` call (`\volta 2,3` gives 2 and 3).
pub fn volta_numbers(call: &CommandCall) -> (r: Vec<u32>)
    ensures
        r@ == listed(*call),
{
    let mut out: Vec<u32> = Vec::new();
    match numbers_of(call) {
        Some(values) => {
            let mut k: usize = 0;
            while k < values.len()
                invariant
                    k <= values@.len(),
                    out@ == values@.subrange(0, k as int),
                decreases values.len() - k,
            {
                out.push(values[k]);
                assert(out@ =~= values@.subrange(0, k + 1));
                k = k + 1;
            }
            assert(out@ =~= values@);
        },
        None => {},
    }
    out
}

/// Whether `outer`'s body holds the call `inner`, and the two are not the same extent.
pub open spec fn holds_call(outer: CommandCall, inner: CommandCall) -> bool {
    outer.span != inner.span && match first_music(outer.args@) {
        Some(body) => body.start <= inner.keyword.start && inner.span.end <= body.end,
        None => false,
    }
}

/// Whether `outer`'s body strictly contains `inner`'s span.
pub fn contains(outer: &CommandCall, inner: &CommandCall) -> (r: bool)
    ensures
        r == holds_call(*outer, *inner),
{
    if outer.span == inner.span {
        return false;
    }
    match outer.body() {
        Some(body) => body.start <= inner.keyword.start && inner.span.end <= body.end,
        None => false,
    }
}

/// How many bytes each delimiter of a block takes: two for `<<` and `>>`, one for a brace.
pub open spec fn delimiter(bytes: Seq<u8>, block: Span) -> int {
    if block.start + 1 < bytes.len() && bytes[block.start as int] == 60 && bytes[block.start + 1]
        == 60 {
        2
    } else {
        1
    }
}

/// The extent inside a block's delimiters; none where the block is too small to hold them.
pub open spec fn inside(bytes: Seq<u8>, block: Span) -> Option<Span> {
    let width = delimiter(bytes, block);
    if block.start + width <= block.end - width {
        Some(Span { start: (block.start + width) as usize, end: (block.end - width) as usize })
    } else {
        None
    }
}

fn between(src: &str, block: Span) -> (r: Option<Span>)
    ensures
        r == inside(encode_utf8(src@), block),
{
    let bytes = src.as_bytes();
    let width: usize = if block.start < bytes.len() && bytes.len() - block.start > 1
        && bytes[block.start] == 60 && bytes[block.start + 1] == 60 {
        2
    } else {
        1
    };
    if block.end < width || block.end - width < width || block.start > block.end - width - width {
        None
    } else {
        Some(Span::new(block.start + width, block.end - width))
    }
}

/// The extent inside a block with the white space at its ends left out, never ending before it
/// starts.
pub open spec fn trimmed_inside(src: Seq<char>, block: Span) -> Option<Span> {
    match inside(encode_utf8(src), block) {
        Some(inner) => {
            let (start, end) = trimmed_range(src, inner.start as int, inner.end as int);
            Some(
                Span {
                    start: start as usize,
                    end: if end >= start {
                        end as usize
                    } else {
                        start as usize
                    },
                },
            )
        },
        None => None,
    }
}

/// The trimmed inner extent of a `{ … }` or `<< … >>` block, its delimiters left out, or `None` if
/// it is too small to hold them.
pub fn inner(src: &str, block: Span) -> (r: Option<Span>)
    ensures
        r == trimmed_inside(src@, block),
{
    match between(src, block) {
        Some(inner) => {
            let (start, end) = trim_range(src, inner.start, inner.end);
            Some(
                Span::new(
                    start,
                    if end >= start {
                        end
                    } else {
                        start
                    },
                ),
            )
        },
        None => None,
    }
}

/// How many spaces and tabs `text` holds from `from` on.
pub open spec fn blanks(text: Seq<char>, from: int) -> nat
    decreases text.len() - from,
{
    if 0 <= from < text.len() && (text[from] == ' ' || text[from] == '\t') {
        1 + blanks(text, from + 1)
    } else {
        0
    }
}

/// The byte length of the leading run of spaces and tabs in `text`.
pub fn horizontal_ws(text: &str) -> (r: usize)
    ensures
        r == blanks(text@, 0),
        r <= text@.len(),
{
    let chars = crate::text::chars_of(text);
    let mut i: usize = 0;
    while i < chars.len() && (chars[i] == ' ' || chars[i] == '\t')
        invariant
            chars@ == text@,
            i <= chars@.len(),
            blanks(text@, 0) == i + blanks(text@, i as int),
        decreases chars.len() - i,
    {
        i = i + 1;
    }
    i
}

/// Whether a span opens with a block delimiter (`{` or `<<`).
pub open spec fn opens_block(bytes: Seq<u8>, span: Span) -> bool {
    span.start < bytes.len() && (bytes[span.start as int] == 123 || (bytes[span.start as int] == 60
        && span.start + 1 < bytes.len() && bytes[span.start + 1] == 60))
}

pub fn is_braced(src: &str, span: Span) -> (r: bool)
    ensures
        r == opens_block(encode_utf8(src@), span),
{
    let bytes = src.as_bytes();
    span.start < bytes.len() && (bytes[span.start] == 123 || (bytes[span.start] == 60
        && bytes.len() - span.start > 1 && bytes[span.start + 1] == 60))
}

/// The white space that the line holding `offset` starts with, up to `offset`.
pub open spec fn indent_at(src: Seq<char>, offset: int) -> Seq<char> {
    let bytes = encode_utf8(src);
    let line = cut_of(src, line_start(bytes, within(bytes, offset)), offset);
    line.subrange(0, leading_white(line) as int)
}

/// The leading whitespace of the line containing `offset`.
pub fn line_indent(src: &str, offset: usize) -> (r: &str)
    ensures
        r@ == indent_at(src@, offset as int),
{
    let line = cut(src, start_of_line(src, offset), offset);
    let chars = crate::text::chars_of(line);
    let mut i: usize = 0;
    assert(line@.subrange(0, line@.len() as int) =~= line@);
    while i < chars.len() && crate::text::is_white(chars[i])
        invariant
            chars@ == line@,
            i <= chars@.len(),
            leading_white(line@) == i + leading_white(line@.subrange(i as int, line@.len() as int)),
        decreases chars.len() - i,
    {
        assert(line@.subrange(i as int, line@.len() as int).drop_first() =~= line@.subrange(
            i + 1,
            line@.len() as int,
        ));
        i = i + 1;
    }
    vstd::string::StrSliceExecFns::substring_char(line, 0, i)
}

/// A `\repeat <kind> <n> { … }` construct, with its optional `\alternative { … }`, located and
/// validated.
#[derive(Debug, Clone, Copy, PartialEq, Eq, Structural)]
pub struct Repeat {
    /// First byte of the `\repeat` keyword, where the replacement begins.
    pub start: usize,
    pub count: u32,
    /// The body, its delimiters included.
    pub body: Span,
    /// The music to duplicate.
    pub repeated: Span,
    /// The `\alternative` block (braces included), inside the body or trailing it.
    pub alternative: Option<Span>,
    /// Last byte of the whole construct, where the replacement ends.
    pub end: usize,
    /// The music block the construct sits directly in, if any.
    pub block: Option<Span>,
}

/// A located `\alternative` block: its extent, where its keyword begins, and whether it sits inside
/// the repeat body or trails after it.
#[derive(Debug, Clone, Copy, PartialEq, Eq, Structural)]
pub struct AltLoc {
    pub block: Span,
    pub keyword_start: usize,
    pub inside: bool,
}

/// Which calls are `\alternative`s with their keyword in `[start, end)`.
pub open spec fn alternative_in(calls: Seq<CommandCall>, start: int, end: int) -> spec_fn(
    int,
) -> bool {
    |k: int| start <= calls[k].keyword.start < end && calls[k].name@ == "alternative"@
}

/// Which calls are `\alternative`s behind `end` with nothing but white space between.
pub open spec fn alternative_after(src: Seq<char>, calls: Seq<CommandCall>, end: int) -> spec_fn(
    int,
) -> bool {
    |k: int|
        calls[k].name@ == "alternative"@ && calls[k].keyword.start >= end && all_white(
            cut_of(src, end, calls[k].keyword.start as int),
        )
}

/// The `\alternative` of the repeat whose body is `body`, given the first one inside it.
pub open spec fn alternative_of(document: Document, body: Span) -> Option<AltLoc> {
    let calls = document.calls();
    let n = calls.len() as int;
    let within = match first_from(0, n, alternative_in(calls, body.start as int, body.end as int)) {
        Some(k) => match first_music(calls[k as int].args@) {
            Some(block) => Some(
                AltLoc {
                    block,
                    keyword_start: calls[k as int].keyword.start,
                    inside: true,
                },
            ),
            None => None,
        },
        None => None,
    };
    match within {
        Some(found) => Some(found),
        None => match first_from(
            0,
            n,
            alternative_after(document.text@, calls, body.end as int),
        ) {
            Some(k) => match first_music(calls[k as int].args@) {
                Some(block) => Some(
                    AltLoc {
                        block,
                        keyword_start: calls[k as int].keyword.start,
                        inside: false,
                    },
                ),
                None => None,
            },
            None => None,
        },
    }
}

/// The `\alternative` belonging to the repeat whose body is `body`: one inside the body if present,
/// otherwise one immediately following it.
pub fn find_alternative(document: &Document, body: Span) -> (r: Option<AltLoc>)
    requires
        document.wf(),
    ensures
        r == alternative_of(*document, body),
{
    let calls = &document.notes.commands.calls;
    let src = document.text.as_str();
    let ghost inner_fits = alternative_in(calls@, body.start as int, body.end as int);
    let ghost after_fits = alternative_after(src@, calls@, body.end as int);
    let mut k: usize = 0;
    while k < calls.len()
        invariant
            k <= calls@.len(),
            calls@ == document.calls(),
            inner_fits == alternative_in(calls@, body.start as int, body.end as int),
            first_from(0, calls@.len() as int, inner_fits) == first_from(
                k as int,
                calls@.len() as int,
                inner_fits,
            ),
        ensures
            k <= calls@.len(),
            k < calls@.len() ==> first_from(0, calls@.len() as int, inner_fits) == Some(k),
            k == calls@.len() ==> first_from(0, calls@.len() as int, inner_fits) is None,
        decreases calls.len() - k,
    {
        if body.start <= calls[k].keyword.start && calls[k].keyword.start < body.end && same(
            calls[k].name.as_str(),
            "alternative",
        ) {
            break;
        }
        k = k + 1;
    }
    if k < calls.len() {
        match calls[k].body() {
            Some(block) => {
                return Some(AltLoc { block, keyword_start: calls[k].keyword.start, inside: true });
            },
            None => {},
        }
    }
    let mut j: usize = 0;
    while j < calls.len()
        invariant
            j <= calls@.len(),
            calls@ == document.calls(),
            src@ == document.text@,
            after_fits == alternative_after(src@, calls@, body.end as int),
            first_from(0, calls@.len() as int, after_fits) == first_from(
                j as int,
                calls@.len() as int,
                after_fits,
            ),
        ensures
            j <= calls@.len(),
            j < calls@.len() ==> first_from(0, calls@.len() as int, after_fits) == Some(j),
            j == calls@.len() ==> first_from(0, calls@.len() as int, after_fits) is None,
        decreases calls.len() - j,
    {
        if same(calls[j].name.as_str(), "alternative") && calls[j].keyword.start >= body.end
            && is_blank(cut(src, body.end, calls[j].keyword.start)) {
            break;
        }
        j = j + 1;
    }
    if j < calls.len() {
        match calls[j].body() {
            Some(block) => Some(
                AltLoc { block, keyword_start: calls[j].keyword.start, inside: false },
            ),
            None => None,
        }
    } else {
        None
    }
}

/// The music block that the node at `at` sits directly in.
pub open spec fn block_around(document: Document, at: int) -> Option<Span> {
    let nodes = document.nodes();
    match parent_of(nodes, smallest_from(nodes, 0, at, at + 1)) {
        Some(parent) => if block_kind(nodes[parent as int].kind@) {
            Some(span_of(nodes, parent as int))
        } else {
            None
        },
        None => None,
    }
}

/// The music block the `\repeat` at `keyword_start` sits directly in, if any.
pub fn parent_block(document: &Document, keyword_start: usize) -> (r: Option<Span>)
    requires
        document.wf(),
    ensures
        r == block_around(*document, keyword_start as int),
{
    if keyword_start == usize::MAX {
        proof {
            document.tree.lemma_wf();
            let nodes = document.nodes();
            let at = keyword_start as int;
            crate::syntax::lemma_none_reaching(nodes, children_of(nodes, 0), at, at + 1);
        }
        return None;
    }
    let node = match document.tree.descendant_for_byte_range(keyword_start, keyword_start + 1) {
        Some(node) => node,
        None => {
            return None;
        },
    };
    match document.tree.parent(node) {
        Some(parent) => if is_block(document.tree.nodes[parent].kind.as_str()) {
            Some(document.tree.span(parent))
        } else {
            None
        },
        None => None,
    }
}

/// Whether a repeat of this kind can be unfolded: every kind but `tremolo`, which is a notational
/// shorthand with no literal expansion.
pub open spec fn unfoldable(kind: Seq<char>) -> bool {
    kind == "volta"@ || kind == "unfold"@ || kind == "percent"@ || kind == "segno"@
}

pub fn is_unfoldable(kind: &str) -> (r: bool)
    ensures
        r == unfoldable(kind@),
{
    same(kind, "volta") || same(kind, "unfold") || same(kind, "percent") || same(kind, "segno")
}

/// Which calls are repeats with `offset` on their header.
pub open spec fn repeat_header(calls: Seq<CommandCall>, offset: int) -> spec_fn(int) -> bool {
    |k: int|
        calls[k].name@ == "repeat"@ && calls[k].keyword.start <= offset && offset <= header_end(
            calls[k].args@,
            calls[k].keyword.end,
        )
}

/// The repeat that a call makes, if it can be unfolded.
pub open spec fn repeat_of(document: Document, call: CommandCall) -> Option<Repeat> {
    match (first_word(call.args@), first_count(call.args@), first_music(call.args@)) {
        (Some(kind), Some(count), Some(body)) => {
            let body_inner = if opens_block(document.bytes(), body) {
                trimmed_inside(document.text@, body)
            } else {
                Some(body)
            };
            if !unfoldable(kind) || count < 1 || body_inner is None {
                None
            } else {
                let alt = alternative_of(document, body);
                let (repeated, end) = match alt {
                    Some(alt) => if alt.inside {
                        (Span { start: body_inner->0.start, end: alt.keyword_start }, body.end)
                    } else {
                        (body_inner->0, alt.block.end)
                    },
                    None => (body_inner->0, body.end),
                };
                Some(
                    Repeat {
                        start: call.keyword.start,
                        count,
                        body,
                        repeated,
                        alternative: match alt {
                            Some(alt) => Some(alt.block),
                            None => None,
                        },
                        end,
                        block: block_around(document, call.keyword.start as int),
                    },
                )
            }
        },
        _ => None,
    }
}

/// The repeat whose header the start of a selection is on.
pub open spec fn repeat_selected(document: Document, selection: Range) -> Option<Repeat> {
    match crate::line_struct::offset_of(document.bytes(), selection.start) {
        Some(offset) => match first_from(
            0,
            document.calls().len() as int,
            repeat_header(document.calls(), offset),
        ) {
            Some(k) => repeat_of(document, document.calls()[k as int]),
            None => None,
        },
        None => None,
    }
}

/// Locates and fully validates the repeat the cursor sits in: a `\repeat` whose header the cursor
/// is on, of an unfoldable kind, with a count of at least one and a body.
pub fn repeat_at(document: &Document, selection: Range) -> (r: Option<Repeat>)
    requires
        document.wf(),
    ensures
        r == repeat_selected(*document, selection),
{
    let offset = match document.line_index.offset_at(selection.start) {
        Some(offset) => offset,
        None => {
            return None;
        },
    };
    let calls = &document.notes.commands.calls;
    let ghost fits = repeat_header(calls@, offset as int);
    let mut k: usize = 0;
    while k < calls.len()
        invariant
            k <= calls@.len(),
            calls@ == document.calls(),
            fits == repeat_header(calls@, offset as int),
            first_from(0, calls@.len() as int, fits) == first_from(
                k as int,
                calls@.len() as int,
                fits,
            ),
        ensures
            k <= calls@.len(),
            k < calls@.len() ==> first_from(0, calls@.len() as int, fits) == Some(k),
            k == calls@.len() ==> first_from(0, calls@.len() as int, fits) is None,
        decreases calls.len() - k,
    {
        if same(calls[k].name.as_str(), "repeat") {
            let header = calls[k].header();
            if header.start <= offset && offset <= header.end {
                break;
            }
        }
        k = k + 1;
    }
    if k == calls.len() {
        return None;
    }
    let call = &calls[k];
    let kind = match bare_word(call) {
        Some(kind) => kind,
        None => {
            return None;
        },
    };
    if !is_unfoldable(kind) {
        return None;
    }
    let count = match count(call) {
        Some(count) => count,
        None => {
            return None;
        },
    };
    if count < 1 {
        return None;
    }
    let body = match call.body() {
        Some(body) => body,
        None => {
            return None;
        },
    };
    // The music to repeat is a block's inner extent, or the whole note or chord when the body is
    // braceless.
    let body_inner = if is_braced(document.text.as_str(), body) {
        match inner(document.text.as_str(), body) {
            Some(span) => span,
            None => {
                return None;
            },
        }
    } else {
        body
    };
    // An `\alternative` inside the body ends the repeated music; one that follows it extends the
    // construct to its own end.
    let alt = find_alternative(document, body);
    let (repeated, end) = match alt {
        Some(alt) => if alt.inside {
            (Span::new(body_inner.start, alt.keyword_start), body.end)
        } else {
            (body_inner, alt.block.end)
        },
        None => (body_inner, body.end),
    };
    Some(
        Repeat {
            start: call.keyword.start,
            count,
            body,
            repeated,
            alternative: match alt {
                Some(alt) => Some(alt.block),
                None => None,
            },
            end,
            block: parent_block(document, call.keyword.start),
        },
    )
}

/// The running resolved state of the output as copies are laid down: the last pitched note's pitch
/// (the `\relative` reference) and the duration in force.
#[derive(Debug)]
pub struct Pred {
    pub pitch: Option<Pitch>,
    pub duration: Duration,
}

/// What a [`Pred`] holds.
pub struct PredView {
    pub pitch: Option<Pitch>,
    pub duration: Seq<char>,
}

impl View for Pred {
    type V = PredView;

    open spec fn view(&self) -> PredView {
        PredView { pitch: self.pitch, duration: self.duration@ }
    }
}

/// The splices that make an event keep its resolved value behind `pred`: its duration, where it was
/// inherited and would now be another, and its octave marks, in relative music.
pub open spec fn event_fixes(src: Seq<char>, event: Event, relative: bool, pred: PredView) -> Seq<
    SpliceView,
> {
    let duration = if !event.duration_written && event.duration@ != pred.duration {
        seq![
            SpliceView {
                start: event.value_end,
                end: event.value_end,
                text: event.duration@,
            },
        ]
    } else {
        Seq::empty()
    };
    let octave = match (relative, note_leading(event), pred.pitch) {
        (true, Some((span, pitch)), Some(outer)) => match respelling(src, span, pitch, outer) {
            Some((marks, text)) => seq![
                SpliceView { start: marks.start, end: marks.end, text },
            ],
            None => Seq::empty(),
        },
        _ => Seq::empty(),
    };
    duration + octave
}

/// The state behind an event.
pub open spec fn pred_after(event: Event, relative: bool, pred: PredView) -> PredView {
    PredView {
        pitch: match (relative, note_leading(event)) {
            (true, Some((_, pitch))) => Some(pitch),
            _ => pred.pitch,
        },
        duration: event.duration@,
    }
}

/// The splices and the final state of a run of events: those of `events` that `at` lists.
pub open spec fn run_fixes(
    src: Seq<char>,
    events: Seq<Event>,
    at: Seq<usize>,
    relative: bool,
    pred: PredView,
) -> (Seq<SpliceView>, PredView)
    decreases at.len(),
{
    if at.len() == 0 {
        (Seq::empty(), pred)
    } else {
        let (before, state) = run_fixes(src, events, at.drop_last(), relative, pred);
        let event = events[at.last() as int];
        (before + event_fixes(src, event, relative, state), pred_after(event, relative, state))
    }
}

/// A run of events as text: the source of `inner` with the structural splices and those of the
/// events applied, and the white space at its ends dropped.
pub open spec fn rendered(
    src: Seq<char>,
    inner: Span,
    events: Seq<Event>,
    at: Seq<usize>,
    structural: Seq<SpliceView>,
    relative: bool,
    pred: PredView,
) -> Seq<char> {
    let edits = structural + run_fixes(src, events, at, relative, pred).0;
    trimmed(
        spliced(
            cut_of(src, inner.start as int, inner.end as int),
            inner.start as int,
            latest_first(edits),
        ),
    )
}

fn fix_event(src: &str, event: &Event, relative: bool, pred: &mut Pred, edits: &mut Vec<Splice>)
    ensures
        splice_views(final(edits)@) == splice_views(old(edits)@) + event_fixes(
            src@,
            *event,
            relative,
            old(pred)@,
        ),
        final(pred)@ == pred_after(*event, relative, old(pred)@),
{
    let ghost before = splice_views(edits@);
    let ghost state = pred@;
    if !event.duration_written && !event.duration.same(&pred.duration) {
        let splice = Splice {
            start: event.value_end,
            end: event.value_end,
            text: event.duration.to_text(),
        };
        edits.push(splice);
        assert(splice_views(edits@) =~= before + seq![splice@]);
    } else {
        assert(splice_views(edits@) =~= before + Seq::<SpliceView>::empty());
    }
    let ghost mid = splice_views(edits@);
    let ghost duration = mid.subrange(before.len() as int, mid.len() as int);
    assert(mid =~= before + duration);
    pred.duration = event.duration.copy();
    if relative {
        match leading_note(event) {
            Some((span, pitch)) => {
                match pred.pitch {
                    Some(outer) => match octave_respelling(src, span, pitch, outer) {
                        Some((marks, text)) => {
                            let splice = Splice { start: marks.start, end: marks.end, text };
                            edits.push(splice);
                            assert(splice_views(edits@) =~= mid + seq![splice@]);
                        },
                        None => {},
                    },
                    None => {},
                }
                pred.pitch = Some(pitch);
            },
            None => {},
        }
    }
    assert(splice_views(edits@) =~= before + event_fixes(src@, *event, relative, state));
}

/// Renders a run of events taken from the source span `inner`, applying the given structural
/// splices and the fixes that keep each note's resolved value. Advances `pred`.
pub fn render(
    src: &str,
    inner: Span,
    events: &Vec<Event>,
    at: &Vec<usize>,
    structural: Vec<Splice>,
    relative: bool,
    pred: &mut Pred,
) -> (r: String)
    requires
        forall|k: int| 0 <= k < at@.len() ==> (#[trigger] at@[k]) < events@.len(),
    ensures
        r@ == rendered(
            src@,
            inner,
            events@,
            at@,
            splice_views(structural@),
            relative,
            old(pred)@,
        ),
        final(pred)@ == run_fixes(src@, events@, at@, relative, old(pred)@).1,
{
    let ghost given = splice_views(structural@);
    let ghost state = pred@;
    let mut edits = structural;
    let mut k: usize = 0;
    assert(at@.subrange(0, 0) =~= Seq::empty());
    assert(splice_views(edits@) =~= given + Seq::<SpliceView>::empty());
    while k < at.len()
        invariant
            k <= at@.len(),
            forall|k: int| 0 <= k < at@.len() ==> (#[trigger] at@[k]) < events@.len(),
            splice_views(edits@) == given + run_fixes(
                src@,
                events@,
                at@.subrange(0, k as int),
                relative,
                state,
            ).0,
            pred@ == run_fixes(src@, events@, at@.subrange(0, k as int), relative, state).1,
        decreases at.len() - k,
    {
        let ghost done = run_fixes(src@, events@, at@.subrange(0, k as int), relative, state);
        assert(at@.subrange(0, k + 1).drop_last() =~= at@.subrange(0, k as int));
        fix_event(src, &events[at[k]], relative, pred, &mut edits);
        proof {
            let more = event_fixes(src@, events@[at@[k as int] as int], relative, done.1);
            assert((given + done.0) + more =~= given + (done.0 + more));
        }
        k = k + 1;
    }
    assert(at@.subrange(0, k as int) =~= at@);
    let text = apply_splices(cut(src, inner.start, inner.end), inner.start, edits);
    trim(text.as_str()).to_string()
}

/// Whether some of `voltas` holds the call `call` and does not play on `r`.
pub open spec fn in_dropped(
    calls: Seq<CommandCall>,
    voltas: Seq<usize>,
    call: CommandCall,
    r: u32,
) -> bool {
    exists|k: int|
        0 <= k < voltas.len() && holds_call(calls[#[trigger] voltas[k] as int], call) && !plays(
            calls[voltas[k] as int],
            r,
        )
}

/// What a volta does to the copy of the body for repeat `r`: it is unwrapped where it plays, and
/// dropped with the blanks behind it where it does not. One inside a dropped volta goes with it.
pub open spec fn volta_splices(
    src: Seq<char>,
    body: Span,
    calls: Seq<CommandCall>,
    voltas: Seq<usize>,
    volta: CommandCall,
    r: u32,
) -> Seq<SpliceView> {
    if in_dropped(calls, voltas, volta, r) {
        Seq::empty()
    } else if plays(volta, r) {
        match first_music(volta.args@) {
            Some(block) => match trimmed_inside(src, block) {
                Some(content) => seq![
                    SpliceView {
                        start: volta.keyword.start,
                        end: content.start,
                        text: Seq::empty(),
                    },
                    SpliceView { start: content.end, end: block.end, text: Seq::empty() },
                ],
                None => Seq::empty(),
            },
            None => Seq::empty(),
        }
    } else {
        let end = match first_music(volta.args@) {
            Some(block) => block.end,
            None => volta.span.end,
        };
        let blank = blanks(cut_of(src, end as int, body.end as int), 0);
        seq![
            SpliceView {
                start: volta.keyword.start,
                end: (end + blank) as usize,
                text: Seq::empty(),
            },
        ]
    }
}

/// What the first `n` voltas do to the copy for repeat `r`.
pub open spec fn body_splices(
    src: Seq<char>,
    body: Span,
    calls: Seq<CommandCall>,
    voltas: Seq<usize>,
    r: u32,
    n: int,
) -> Seq<SpliceView>
    decreases n,
{
    if n <= 0 {
        Seq::empty()
    } else {
        body_splices(src, body, calls, voltas, r, n - 1) + volta_splices(
            src,
            body,
            calls,
            voltas,
            calls[voltas[n - 1] as int],
            r,
        )
    }
}

/// Whether an event is dropped on repeat `r`: it lies in a volta that does not play on `r`.
pub open spec fn event_dropped(
    event: Event,
    calls: Seq<CommandCall>,
    voltas: Seq<usize>,
    r: u32,
) -> bool {
    exists|k: int|
        0 <= k < voltas.len() && !plays(calls[#[trigger] voltas[k] as int], r) && match first_music(
            calls[voltas[k] as int].args@,
        ) {
            Some(body) => body.start <= event.span.start && event.span.end <= body.end,
            None => false,
        }
}

/// Those of the events `at` lists that are not dropped on repeat `r`.
pub open spec fn surviving(
    events: Seq<Event>,
    at: Seq<usize>,
    calls: Seq<CommandCall>,
    voltas: Seq<usize>,
    r: u32,
) -> Seq<usize>
    decreases at.len(),
{
    if at.len() == 0 {
        at
    } else {
        let before = surviving(events, at.drop_last(), calls, voltas, r);
        if event_dropped(events[at.last() as int], calls, voltas, r) {
            before
        } else {
            before.push(at.last())
        }
    }
}

/// Whether event `e` is dropped on repeat `r`: it lies inside a `\volta` block that does not play
/// on `r`.
pub fn dropped(e: &Event, calls: &Vec<CommandCall>, voltas: &Vec<usize>, r: u32) -> (b: bool)
    requires
        forall|k: int| 0 <= k < voltas@.len() ==> (#[trigger] voltas@[k]) < calls@.len(),
    ensures
        b == event_dropped(*e, calls@, voltas@, r),
{
    let mut k: usize = 0;
    while k < voltas.len()
        invariant
            k <= voltas@.len(),
            forall|k: int| 0 <= k < voltas@.len() ==> (#[trigger] voltas@[k]) < calls@.len(),
            forall|j: int|
                0 <= j < k ==> plays(calls@[#[trigger] voltas@[j] as int], r)
                    || match first_music(calls@[voltas@[j] as int].args@) {
                    Some(body) => !(body.start <= e.span.start && e.span.end <= body.end),
                    None => true,
                },
        decreases voltas.len() - k,
    {
        let volta = &calls[voltas[k]];
        if !plays_on(volta, r) {
            match volta.body() {
                Some(body) => {
                    if body.start <= e.span.start && e.span.end <= body.end {
                        assert(voltas@[k as int] == voltas[k as int]);
                        return true;
                    }
                },
                None => {},
            }
        }
        k = k + 1;
    }
    false
}

fn inside_dropped(calls: &Vec<CommandCall>, voltas: &Vec<usize>, call: &CommandCall, r: u32) -> (b:
    bool)
    requires
        forall|k: int| 0 <= k < voltas@.len() ==> (#[trigger] voltas@[k]) < calls@.len(),
    ensures
        b == in_dropped(calls@, voltas@, *call, r),
{
    let mut k: usize = 0;
    while k < voltas.len()
        invariant
            k <= voltas@.len(),
            forall|k: int| 0 <= k < voltas@.len() ==> (#[trigger] voltas@[k]) < calls@.len(),
            forall|j: int|
                0 <= j < k ==> !holds_call(calls@[#[trigger] voltas@[j] as int], *call) || plays(
                    calls@[voltas@[j] as int],
                    r,
                ),
        decreases voltas.len() - k,
    {
        let outer = &calls[voltas[k]];
        if contains(outer, call) && !plays_on(outer, r) {
            assert(voltas@[k as int] == voltas[k as int]);
            return true;
        }
        k = k + 1;
    }
    false
}

/// The blanks cut out of a text behind `from` keep the offset in range.
proof fn lemma_blanks_fit(src: Seq<char>, from: usize, to: usize)
    ensures
        from + blanks(cut_of(src, from as int, to as int), 0) <= usize::MAX,
{
    let piece = cut_of(src, from as int, to as int);
    lemma_blanks_count(piece, 0);
    crate::code_action::note_state::lemma_cut_len(src, from, to);
}

proof fn lemma_blanks_count(text: Seq<char>, from: int)
    requires
        0 <= from <= text.len(),
    ensures
        from + blanks(text, from) <= text.len(),
    decreases text.len() - from,
{
    if from < text.len() {
        lemma_blanks_count(text, from + 1);
    }
}

fn push_volta(
    src: &str,
    body: Span,
    calls: &Vec<CommandCall>,
    voltas: &Vec<usize>,
    volta: &CommandCall,
    r: u32,
    out: &mut Vec<Splice>,
)
    requires
        forall|k: int| 0 <= k < voltas@.len() ==> (#[trigger] voltas@[k]) < calls@.len(),
    ensures
        splice_views(final(out)@) == splice_views(old(out)@) + volta_splices(
            src@,
            body,
            calls@,
            voltas@,
            *volta,
            r,
        ),
{
    let ghost before = splice_views(out@);
    if inside_dropped(calls, voltas, volta, r) {
        assert(splice_views(out@) =~= before + Seq::<SpliceView>::empty());
        return;
    }
    if plays_on(volta, r) {
        // Keep the music, unwrap what is around it, and keep the trimmed content so that no
        // doubled space is left behind.
        match volta.body() {
            Some(block) => match inner(src, block) {
                Some(content) => {
                    let open = Splice {
                        start: volta.keyword.start,
                        end: content.start,
                        text: String::new(),
                    };
                    let close = Splice {
                        start: content.end,
                        end: block.end,
                        text: String::new(),
                    };
                    out.push(open);
                    out.push(close);
                    assert(splice_views(out@) =~= before + seq![open@, close@]);
                    return;
                },
                None => {},
            },
            None => {},
        }
        assert(splice_views(out@) =~= before + Seq::<SpliceView>::empty());
    } else {
        // Drop the whole `\volta N { … }`, swallowing the space after it so that the surrounding
        // music keeps a single separator.
        let end = match volta.body() {
            Some(block) => block.end,
            None => volta.span.end,
        };
        proof {
            lemma_blanks_fit(src@, end, body.end);
        }
        let splice = Splice {
            start: volta.keyword.start,
            end: end + horizontal_ws(cut(src, end, body.end)),
            text: String::new(),
        };
        out.push(splice);
        assert(splice_views(out@) =~= before + seq![splice@]);
    }
}

/// One copy of the body for repeat `r`.
pub open spec fn body_copy(
    src: Seq<char>,
    body: Span,
    events: Seq<Event>,
    at: Seq<usize>,
    calls: Seq<CommandCall>,
    voltas: Seq<usize>,
    r: u32,
    relative: bool,
    pred: PredView,
) -> (Seq<char>, PredView) {
    let kept = surviving(events, at, calls, voltas, r);
    (
        rendered(
            src,
            body,
            events,
            kept,
            body_splices(src, body, calls, voltas, r, voltas.len() as int),
            relative,
            pred,
        ),
        run_fixes(src, events, kept, relative, pred).1,
    )
}

/// Renders one copy of the body for repeat `r`: the body's inner text with dropped `\volta` blocks
/// removed, kept ones unwrapped, and per-event duration and octave fixes applied. Advances `pred`
/// through the kept events.
pub fn render_body(
    src: &str,
    body: Span,
    events: &Vec<Event>,
    at: &Vec<usize>,
    calls: &Vec<CommandCall>,
    voltas: &Vec<usize>,
    r: u32,
    relative: bool,
    pred: &mut Pred,
) -> (out: String)
    requires
        forall|k: int| 0 <= k < voltas@.len() ==> (#[trigger] voltas@[k]) < calls@.len(),
        forall|k: int| 0 <= k < at@.len() ==> (#[trigger] at@[k]) < events@.len(),
    ensures
        (out@, final(pred)@) == body_copy(
            src@,
            body,
            events@,
            at@,
            calls@,
            voltas@,
            r,
            relative,
            old(pred)@,
        ),
{
    let mut structural: Vec<Splice> = Vec::new();
    let mut k: usize = 0;
    assert(splice_views(structural@) =~= Seq::empty());
    while k < voltas.len()
        invariant
            k <= voltas@.len(),
            forall|k: int| 0 <= k < voltas@.len() ==> (#[trigger] voltas@[k]) < calls@.len(),
            splice_views(structural@) == body_splices(src@, body, calls@, voltas@, r, k as int),
        decreases voltas.len() - k,
    {
        push_volta(src, body, calls, voltas, &calls[voltas[k]], r, &mut structural);
        k = k + 1;
    }
    let mut kept: Vec<usize> = Vec::new();
    let mut j: usize = 0;
    assert(at@.subrange(0, 0) =~= Seq::empty());
    while j < at.len()
        invariant
            j <= at@.len(),
            forall|k: int| 0 <= k < voltas@.len() ==> (#[trigger] voltas@[k]) < calls@.len(),
            forall|k: int| 0 <= k < at@.len() ==> (#[trigger] at@[k]) < events@.len(),
            forall|k: int| 0 <= k < kept@.len() ==> (#[trigger] kept@[k]) < events@.len(),
            kept@ == surviving(events@, at@.subrange(0, j as int), calls@, voltas@, r),
        decreases at.len() - j,
    {
        assert(at@.subrange(0, j + 1).drop_last() =~= at@.subrange(0, j as int));
        if !dropped(&events[at[j]], calls, voltas, r) {
            kept.push(at[j]);
        }
        j = j + 1;
    }
    assert(at@.subrange(0, j as int) =~= at@);
    render(src, body, events, &kept, structural, relative, pred)
}

/// Which events lie wholly within a span. Those that only overlap it are left out.
pub open spec fn event_in(events: Seq<Event>, span: Span) -> spec_fn(int) -> bool {
    |k: int|
        overlaps(events[k], span.start as int, span.end as int) && events[k].span.start
            >= span.start && events[k].span.end <= span.end
}

/// The events lying wholly within `span`, in source order, by their place in the list.
pub fn events_in(document: &Document, span: Span) -> (r: Vec<usize>)
    ensures
        r@ == kept(document.events().len() as int, event_in(document.events(), span)),
        forall|k: int| 0 <= k < r@.len() ==> (#[trigger] r@[k]) < document.events().len(),
{
    let events = &document.notes.events;
    let ghost fits = event_in(events@, span);
    let mut out: Vec<usize> = Vec::new();
    let mut k: usize = 0;
    while k < events.len()
        invariant
            k <= events@.len(),
            fits == event_in(events@, span),
            out@ == kept(k as int, fits),
        decreases events.len() - k,
    {
        let e = &events[k];
        if e.span.start < span.end && e.span.end > span.start && e.span.start >= span.start
            && e.span.end <= span.end {
            out.push(k);
        }
        k = k + 1;
    }
    proof {
        lemma_kept(k as int, fits);
    }
    out
}

/// One alternative ending: the music to play and, if it was written as a `\volta`-tagged block, the
/// repeats it plays on. A plain `{ … }` ending has no list and is placed positionally instead.
#[derive(Debug)]
pub struct Ending {
    pub span: Span,
    pub voltas: Option<Vec<u32>>,
}

/// What an [`Ending`] holds.
pub struct EndingView {
    pub span: Span,
    pub voltas: Option<Seq<u32>>,
}

impl View for Ending {
    type V = EndingView;

    open spec fn view(&self) -> EndingView {
        EndingView {
            span: self.span,
            voltas: match self.voltas {
                Some(values) => Some(values@),
                None => None,
            },
        }
    }
}

/// What each of a run of endings holds.
pub open spec fn ending_views(endings: Seq<Ending>) -> Seq<EndingView> {
    endings.map_values(|ending: Ending| ending@)
}

/// Which endings are tagged with repeat `r`.
pub open spec fn tagged(endings: Seq<EndingView>, r: u32) -> spec_fn(int) -> bool {
    |k: int|
        match endings[k].voltas {
            Some(values) => values.contains(r),
            None => false,
        }
}

/// Whether some ending is tagged at all.
pub open spec fn any_tagged(endings: Seq<EndingView>) -> bool {
    exists|k: int| 0 <= k < endings.len() && (#[trigger] endings[k]).voltas is Some
}

/// Where repeat `r` of `n` falls among `m` plain endings, counted from 0: each ending has its
/// repeat where there are enough of them, and otherwise the last repeats have one each and the
/// first ending fills the ones before.
pub open spec fn place_among(r: int, n: int, m: int) -> int {
    let one_based = if m >= n {
        if r < m {
            r
        } else {
            m
        }
    } else if r + m - n > 1 {
        r + m - n
    } else {
        1
    };
    if one_based - 1 < m - 1 {
        one_based - 1
    } else {
        m - 1
    }
}

/// Which ending repeat `r` of `n` uses, if one applies.
pub open spec fn ending_of(r: u32, n: u32, endings: Seq<EndingView>) -> Option<usize> {
    if endings.len() == 0 {
        None
    } else if any_tagged(endings) {
        first_from(0, endings.len() as int, tagged(endings, r))
    } else {
        Some(place_among(r as int, n as int, endings.len() as int) as usize)
    }
}

/// Which ending (0-based) repeat `r` of `n` uses, or `None` if none applies. `\volta`-tagged endings
/// are matched by their number list; plain endings are distributed positionally. Repeats are counted
/// from 1: there is no ending before the first, which is what repeat 0 would be given where there are
/// plain endings for every repeat.
pub fn ending_for(r: u32, n: u32, endings: &Vec<Ending>) -> (k: Option<usize>)
    requires
        r == 0 && 0 < endings@.len() && n <= endings@.len() ==> any_tagged(ending_views(endings@)),
    ensures
        k == ending_of(r, n, ending_views(endings@)),
        k is Some ==> k->0 < endings@.len(),
{
    let ghost views = ending_views(endings@);
    if endings.len() == 0 {
        return None;
    }
    let mut any: bool = false;
    let mut i: usize = 0;
    while i < endings.len()
        invariant
            i <= endings@.len(),
            views == ending_views(endings@),
            any == exists|k: int| 0 <= k < i && (#[trigger] views[k]).voltas is Some,
        decreases endings.len() - i,
    {
        let ghost was = any;
        if endings[i].voltas.is_some() {
            any = true;
        }
        proof {
            assert(views[i as int] == endings@[i as int]@);
            if was {
                let k = choose|k: int| 0 <= k < i && (#[trigger] views[k]).voltas is Some;
                assert(0 <= k < i + 1 && views[k].voltas is Some);
            }
        }
        i = i + 1;
    }
    if any {
        let ghost fits = tagged(views, r);
        let mut k: usize = 0;
        while k < endings.len()
            invariant
                k <= endings@.len(),
                views == ending_views(endings@),
                views.len() == endings@.len(),
                fits == tagged(views, r),
                first_from(0, views.len() as int, fits) == first_from(
                    k as int,
                    views.len() as int,
                    fits,
                ),
                any_tagged(views),
                views.len() > 0,
            decreases endings.len() - k,
        {
            assert(views[k as int] == endings@[k as int]@);
            match &endings[k].voltas {
                Some(values) => {
                    if lists(values, r) {
                        return Some(k);
                    }
                },
                None => {},
            }
            k = k + 1;
        }
        return None;
    }
    let m: u128 = endings.len() as u128;
    let one_based: u128 = if m >= n as u128 {
        if (r as u128) < m {
            r as u128
        } else {
            m
        }
    } else if r as u128 + m > n as u128 + 1 {
        r as u128 + m - n as u128
    } else {
        1
    };
    let k: usize = if one_based - 1 < m - 1 {
        (one_based - 1) as usize
    } else {
        endings.len() - 1
    };
    Some(k)
}

/// With as many plain endings as repeats, or more, each repeat has the ending of its own number;
/// with fewer, the last repeat still has the last ending and the first repeat the first, and a later
/// repeat never has an earlier ending.
pub proof fn law_plain_endings_go_in_order(r: int, s: int, n: int, m: int)
    requires
        1 <= r <= s <= n,
        1 <= m,
    ensures
        0 <= place_among(r, n, m) <= place_among(s, n, m) < m,
        m >= n ==> place_among(r, n, m) == r - 1,
        m <= n ==> place_among(n, n, m) == m - 1,
        place_among(1, n, m) == 0,
{
}

/// Which calls are voltas with their keyword in `[start, end)`.
pub open spec fn volta_in(calls: Seq<CommandCall>, start: int, end: int) -> spec_fn(int) -> bool {
    |k: int| start <= calls[k].keyword.start < end && calls[k].name@ == "volta"@
}

/// The voltas with their keyword in a span, by their place in the list.
fn voltas_in(calls: &Vec<CommandCall>, span: Span) -> (r: Vec<usize>)
    ensures
        r@ == kept(calls@.len() as int, volta_in(calls@, span.start as int, span.end as int)),
        forall|k: int| 0 <= k < r@.len() ==> (#[trigger] r@[k]) < calls@.len(),
{
    let ghost fits = volta_in(calls@, span.start as int, span.end as int);
    let mut out: Vec<usize> = Vec::new();
    let mut k: usize = 0;
    while k < calls.len()
        invariant
            k <= calls@.len(),
            fits == volta_in(calls@, span.start as int, span.end as int),
            out@ == kept(k as int, fits),
        decreases calls.len() - k,
    {
        if span.start <= calls[k].keyword.start && calls[k].keyword.start < span.end && same(
            calls[k].name.as_str(),
            "volta",
        ) {
            out.push(k);
        }
        k = k + 1;
    }
    proof {
        lemma_kept(k as int, fits);
    }
    out
}

/// Whether the volta `k` of `voltas` lies in none of the others.
pub open spec fn outermost(calls: Seq<CommandCall>, voltas: Seq<usize>, k: int) -> bool {
    forall|m: int|
        0 <= m < voltas.len() ==> !holds_call(
            calls[#[trigger] voltas[m] as int],
            calls[voltas[k] as int],
        )
}

/// Whether some volta lies in none of the others.
pub open spec fn any_outermost(calls: Seq<CommandCall>, voltas: Seq<usize>) -> bool {
    exists|k: int| 0 <= k < voltas.len() && #[trigger] outermost(calls, voltas, k)
}

/// The ending that a volta makes, if it has a body with room for one.
pub open spec fn volta_ending(src: Seq<char>, volta: CommandCall) -> Option<EndingView> {
    match first_music(volta.args@) {
        Some(body) => match trimmed_inside(src, body) {
            Some(span) => Some(EndingView { span, voltas: Some(listed(volta)) }),
            None => None,
        },
        None => None,
    }
}

/// The endings that the outermost of the first `n` voltas make.
pub open spec fn tagged_endings(
    src: Seq<char>,
    calls: Seq<CommandCall>,
    voltas: Seq<usize>,
    n: int,
) -> Seq<EndingView>
    decreases n,
{
    if n <= 0 {
        Seq::empty()
    } else {
        let before = tagged_endings(src, calls, voltas, n - 1);
        match volta_ending(src, calls[voltas[n - 1] as int]) {
            Some(ending) => if outermost(calls, voltas, n - 1) {
                before.push(ending)
            } else {
                before
            },
            None => before,
        }
    }
}

/// The plain endings among the first `n` of a row of nodes: one for each block with room for one.
pub open spec fn plain_endings(
    src: Seq<char>,
    nodes: Seq<crate::syntax::Node>,
    row: Seq<usize>,
    n: int,
) -> Seq<EndingView>
    decreases n,
{
    if n <= 0 {
        Seq::empty()
    } else {
        let before = plain_endings(src, nodes, row, n - 1);
        let i = row[n - 1] as int;
        if block_kind(nodes[i].kind@) {
            match trimmed_inside(src, span_of(nodes, i)) {
                Some(span) => before.push(EndingView { span, voltas: None }),
                None => before,
            }
        } else {
            before
        }
    }
}

/// The nearest block that node `i` is or sits in.
pub open spec fn nearest_block(nodes: Seq<crate::syntax::Node>, i: int) -> Option<usize>
    decreases i,
{
    if block_kind(nodes[i].kind@) {
        Some(i as usize)
    } else if 0 < i && 0 <= nodes[i].parent < i {
        nearest_block(nodes, nodes[i].parent as int)
    } else {
        None
    }
}

/// The nearest block around a span.
pub open spec fn nearest_block_of(document: Document, span: Span) -> Option<usize> {
    if span.start <= span.end {
        nearest_block(
            document.nodes(),
            smallest_from(document.nodes(), 0, span.start as int, span.end as int),
        )
    } else {
        None
    }
}

/// The block node covering exactly a span.
pub open spec fn block_covering(document: Document, span: Span) -> Option<usize> {
    match nearest_block_of(document, span) {
        Some(i) => if span_of(document.nodes(), i as int) == span {
            Some(i)
        } else {
            None
        },
        None => None,
    }
}

/// The block node covering exactly `span`.
pub fn block_node(document: &Document, span: Span) -> (r: Option<usize>)
    requires
        document.wf(),
    ensures
        r == block_covering(*document, span),
        r is Some ==> r->0 < document.nodes().len(),
{
    let mut node: usize = match document.tree.descendant_for_byte_range(span.start, span.end) {
        Some(node) => node,
        None => {
            return None;
        },
    };
    while !is_block(document.tree.nodes[node].kind.as_str())
        invariant
            document.wf(),
            node < document.nodes().len(),
            nearest_block_of(*document, span) == nearest_block(document.nodes(), node as int),
        decreases node,
    {
        match document.tree.parent(node) {
            Some(parent) => {
                node = parent;
            },
            None => {
                return None;
            },
        }
    }
    if document.tree.span(node) == span {
        Some(node)
    } else {
        None
    }
}

/// The endings inside an `\alternative` block: those of its outermost voltas if it holds any,
/// otherwise its plain blocks, and its whole content where it holds neither.
pub open spec fn endings_of(document: Document, alt: Span) -> Seq<EndingView> {
    let calls = document.calls();
    let voltas = kept(calls.len() as int, volta_in(calls, alt.start as int, alt.end as int));
    if any_outermost(calls, voltas) {
        tagged_endings(document.text@, calls, voltas, voltas.len() as int)
    } else {
        match block_covering(document, alt) {
            Some(i) => {
                let row = children_of(document.nodes(), i as int);
                let plain = plain_endings(
                    document.text@,
                    document.nodes(),
                    row,
                    row.len() as int,
                );
                if plain.len() > 0 {
                    plain
                } else {
                    match trimmed_inside(document.text@, alt) {
                        Some(span) => seq![EndingView { span, voltas: None }],
                        None => Seq::empty(),
                    }
                }
            },
            None => Seq::empty(),
        }
    }
}

fn is_outermost(calls: &Vec<CommandCall>, voltas: &Vec<usize>, k: usize) -> (r: bool)
    requires
        forall|k: int| 0 <= k < voltas@.len() ==> (#[trigger] voltas@[k]) < calls@.len(),
        k < voltas@.len(),
    ensures
        r == outermost(calls@, voltas@, k as int),
{
    let mut m: usize = 0;
    while m < voltas.len()
        invariant
            m <= voltas@.len(),
            k < voltas@.len(),
            forall|k: int| 0 <= k < voltas@.len() ==> (#[trigger] voltas@[k]) < calls@.len(),
            forall|j: int|
                0 <= j < m ==> !holds_call(
                    calls@[#[trigger] voltas@[j] as int],
                    calls@[voltas@[k as int] as int],
                ),
        decreases voltas.len() - m,
    {
        if contains(&calls[voltas[m]], &calls[voltas[k]]) {
            assert(voltas@[m as int] == voltas[m as int]);
            return false;
        }
        m = m + 1;
    }
    true
}

fn collect_tagged(src: &str, calls: &Vec<CommandCall>, voltas: &Vec<usize>) -> (r: (
    Vec<Ending>,
    bool,
))
    requires
        forall|k: int| 0 <= k < voltas@.len() ==> (#[trigger] voltas@[k]) < calls@.len(),
    ensures
        ending_views(r.0@) == tagged_endings(
            src@,
            calls@,
            voltas@,
            voltas@.len() as int,
        ),
        r.1 == any_outermost(calls@, voltas@),
{
    let mut out: Vec<Ending> = Vec::new();
    let mut any: bool = false;
    let mut k: usize = 0;
    assert(ending_views(out@) =~= Seq::empty());
    while k < voltas.len()
        invariant
            k <= voltas@.len(),
            forall|k: int| 0 <= k < voltas@.len() ==> (#[trigger] voltas@[k]) < calls@.len(),
            ending_views(out@) == tagged_endings(src@, calls@, voltas@, k as int),
            any == exists|j: int| 0 <= j < k && #[trigger] outermost(calls@, voltas@, j),
        decreases voltas.len() - k,
    {
        let ghost before = ending_views(out@);
        let ghost was = any;
        let volta = &calls[voltas[k]];
        let top = is_outermost(calls, voltas, k);
        if top {
            any = true;
            match volta.body() {
                Some(body) => match inner(src, body) {
                    Some(span) => {
                        let ending = Ending { span, voltas: Some(volta_numbers(volta)) };
                        out.push(ending);
                        assert(ending_views(out@) =~= before.push(ending@));
                    },
                    None => {},
                },
                None => {},
            }
        }
        proof {
            if was {
                let j = choose|j: int| 0 <= j < k && #[trigger] outermost(calls@, voltas@, j);
                assert(0 <= j < k + 1 && outermost(calls@, voltas@, j));
            }
        }
        k = k + 1;
    }
    (out, any)
}

fn collect_plain(document: &Document, row: &Vec<usize>) -> (r: Vec<Ending>)
    requires
        forall|k: int| 0 <= k < row@.len() ==> (#[trigger] row@[k]) < document.nodes().len(),
    ensures
        ending_views(r@) == plain_endings(
            document.text@,
            document.nodes(),
            row@,
            row@.len() as int,
        ),
{
    let mut out: Vec<Ending> = Vec::new();
    let mut k: usize = 0;
    assert(ending_views(out@) =~= Seq::empty());
    while k < row.len()
        invariant
            k <= row@.len(),
            forall|k: int| 0 <= k < row@.len() ==> (#[trigger] row@[k]) < document.nodes().len(),
            ending_views(out@) == plain_endings(
                document.text@,
                document.nodes(),
                row@,
                k as int,
            ),
        decreases row.len() - k,
    {
        let ghost before = ending_views(out@);
        let i = row[k];
        if is_block(document.tree.nodes[i].kind.as_str()) {
            match inner(document.text.as_str(), document.tree.span(i)) {
                Some(span) => {
                    let ending = Ending { span, voltas: None };
                    out.push(ending);
                    assert(ending_views(out@) =~= before.push(ending@));
                },
                None => {},
            }
        }
        k = k + 1;
    }
    out
}

/// The endings inside an `\alternative` block. If it holds `\volta`-tagged blocks, those are the
/// endings, each with its number list; otherwise the plain `{ … }` blocks are, taken positionally.
pub fn parse_endings(document: &Document, alt_block: Span) -> (r: Vec<Ending>)
    requires
        document.wf(),
    ensures
        ending_views(r@) == endings_of(*document, alt_block),
{
    let calls = &document.notes.commands.calls;
    let voltas = voltas_in(calls, alt_block);
    let (endings, any) = collect_tagged(document.text.as_str(), calls, &voltas);
    if any {
        return endings;
    }
    let mut out: Vec<Ending> = Vec::new();
    assert(ending_views(out@) =~= Seq::empty());
    let node = match block_node(document, alt_block) {
        Some(node) => node,
        None => {
            return out;
        },
    };
    let row = document.tree.children(node);
    let plain = collect_plain(document, &row);
    if plain.len() > 0 {
        return plain;
    }
    match inner(document.text.as_str(), alt_block) {
        Some(span) => {
            let ending = Ending { span, voltas: None };
            out.push(ending);
            assert(ending_views(out@) =~= seq![ending@]);
        },
        None => {},
    }
    out
}

/// The segments of the output up to repeat `r`, and the state behind them: for each repeat a copy
/// of the body and then its ending, if it has one.
pub open spec fn segments(document: Document, repeat: Repeat, pred: PredView, r: int) -> (
    Seq<Seq<char>>,
    PredView,
)
    decreases r,
{
    if r <= 0 {
        (Seq::empty(), pred)
    } else {
        let (before, state) = segments(document, repeat, pred, r - 1);
        let events = document.events();
        let calls = document.calls();
        let at = kept(events.len() as int, event_in(events, repeat.repeated));
        let voltas = kept(
            calls.len() as int,
            volta_in(calls, repeat.repeated.start as int, repeat.repeated.end as int),
        );
        let relative = reads_relative(events, at);
        let (copy, after) = body_copy(
            document.text@,
            repeat.repeated,
            events,
            at,
            calls,
            voltas,
            r as u32,
            relative,
            state,
        );
        let endings = repeat_endings(document, repeat);
        match ending_of(r as u32, repeat.count, endings) {
            Some(k) => {
                let span = endings[k as int].span;
                let inside = kept(events.len() as int, event_in(events, span));
                (
                    before.push(copy).push(
                        rendered(
                            document.text@,
                            span,
                            events,
                            inside,
                            Seq::empty(),
                            relative,
                            after,
                        ),
                    ),
                    run_fixes(document.text@, events, inside, relative, after).1,
                )
            },
            None => (before.push(copy), after),
        }
    }
}

/// Whether a run of events is read in relative mode: its first one is.
pub open spec fn reads_relative(events: Seq<Event>, at: Seq<usize>) -> bool {
    at.len() > 0 && events[at[0] as int].relative is Some
}

/// The endings of a repeat.
pub open spec fn repeat_endings(document: Document, repeat: Repeat) -> Seq<EndingView> {
    match repeat.alternative {
        Some(alt) => endings_of(document, alt),
        None => Seq::empty(),
    }
}

/// The state in force just before the body: what its first event carries.
pub open spec fn seed(events: Seq<Event>, at: Seq<usize>) -> PredView {
    if at.len() == 0 {
        PredView { pitch: None, duration: default_duration() }
    } else {
        let first = events[at[0] as int];
        PredView {
            pitch: match first.relative {
                Some(reference) => Some(reference.pitch),
                None => None,
            },
            duration: first.duration@,
        }
    }
}

/// The segments that hold anything, with `separator` between them.
pub open spec fn joined(segments: Seq<Seq<char>>, separator: Seq<char>) -> Seq<char>
    decreases segments.len(),
{
    if segments.len() == 0 {
        Seq::empty()
    } else {
        let before = joined(segments.drop_last(), separator);
        if segments.last().len() == 0 {
            before
        } else if before.len() == 0 {
            segments.last()
        } else {
            before + separator + segments.last()
        }
    }
}

/// What stands between two copies: a line break and the indentation of the `\repeat` where the
/// body spans lines, delimiter to delimiter, otherwise a space.
pub open spec fn separator_for(src: Seq<char>, repeat: Repeat) -> Seq<char> {
    if cut_of(src, repeat.body.start as int, repeat.body.end as int).contains('\n') {
        "\n"@ + indent_at(src, repeat.start as int)
    } else {
        " "@
    }
}

/// Which events lie behind a repeat in its block.
pub open spec fn follows(events: Seq<Event>, end: int, block_end: int) -> spec_fn(int) -> bool {
    |k: int| events[k].span.start >= end && events[k].span.end <= block_end
}

/// The fix to the note that follows a construct, now behind the state `pred`.
pub open spec fn following_edits(
    document: Document,
    repeat: Repeat,
    pred: PredView,
    relative: bool,
) -> Seq<EditView> {
    let events = document.events();
    match repeat.block {
        None => Seq::empty(),
        Some(block) => match first_from(
            0,
            events.len() as int,
            follows(events, repeat.end as int, block.end as int),
        ) {
            None => Seq::empty(),
            Some(k) => note_edits(document, events[k as int], pred, relative),
        },
    }
}

/// The edits that keep a note's resolved value behind the state `pred`.
pub open spec fn note_edits(document: Document, note: Event, pred: PredView, relative: bool) -> Seq<
    EditView,
> {
    let duration = if !note.duration_written && note.duration@ != pred.duration {
        seq![
            EditView {
                range: range_between(
                    document.bytes(),
                    Span { start: note.value_end, end: note.value_end },
                ),
                new_text: note.duration@,
            },
        ]
    } else {
        Seq::empty()
    };
    let octave = match (relative, pred.pitch, note_leading(note)) {
        (true, Some(outer), Some((span, pitch))) => match octave_edit(
            document,
            span,
            pitch,
            outer,
        ) {
            Some(edit) => seq![edit],
            None => Seq::empty(),
        },
        _ => Seq::empty(),
    };
    duration + octave
}

/// The edits that replace a construct with its unfolded music, plus any fix to the note behind it.
pub open spec fn unfolded(document: Document, repeat: Repeat) -> Seq<EditView> {
    let events = document.events();
    let at = kept(events.len() as int, event_in(events, repeat.repeated));
    let (parts, pred) = segments(document, repeat, seed(events, at), repeat.count as int);
    let music = joined(parts, separator_for(document.text@, repeat));
    seq![
        EditView {
            range: range_between(document.bytes(), Span { start: repeat.start, end: repeat.end }),
            new_text: match repeat.block {
                Some(_) => music,
                None => "{ "@ + music + " }"@,
            },
        },
    ] + following_edits(document, repeat, pred, reads_relative(events, at))
}

/// Fixes the note that follows, if it shares the construct's block: now preceded by the last copy's
/// last note, it may need its duration or octave made explicit.
pub fn following_note_edits(document: &Document, repeat: &Repeat, pred: &Pred, relative: bool) -> (r:
    Vec<TextEdit>)
    requires
        document.wf(),
    ensures
        edit_views(r@) == following_edits(*document, *repeat, pred@, relative),
{
    let mut edits: Vec<TextEdit> = Vec::new();
    assert(edit_views(edits@) =~= Seq::empty());
    let block = match repeat.block {
        Some(block) => block,
        None => {
            return edits;
        },
    };
    let events = &document.notes.events;
    let ghost fits = follows(events@, repeat.end as int, block.end as int);
    let mut k: usize = 0;
    while k < events.len()
        invariant
            k <= events@.len(),
            fits == follows(events@, repeat.end as int, block.end as int),
            first_from(0, events@.len() as int, fits) == first_from(
                k as int,
                events@.len() as int,
                fits,
            ),
        ensures
            k <= events@.len(),
            k < events@.len() ==> first_from(0, events@.len() as int, fits) == Some(k),
            k == events@.len() ==> first_from(0, events@.len() as int, fits) is None,
        decreases events.len() - k,
    {
        if events[k].span.start >= repeat.end && events[k].span.end <= block.end {
            break;
        }
        k = k + 1;
    }
    if k == events.len() {
        return edits;
    }
    keep_note(document, &events[k], pred, relative)
}

/// The edits that keep a note's resolved value behind the state `pred`.
fn keep_note(document: &Document, note: &Event, pred: &Pred, relative: bool) -> (r: Vec<TextEdit>)
    requires
        document.wf(),
    ensures
        edit_views(r@) == note_edits(*document, *note, pred@, relative),
{
    let mut edits: Vec<TextEdit> = Vec::new();
    assert(edit_views(edits@) =~= Seq::empty());
    if !note.duration_written && !note.duration.same(&pred.duration) {
        let edit = TextEdit {
            range: document.line_index.range_of(Span::new(note.value_end, note.value_end)),
            new_text: note.duration.to_text(),
        };
        edits.push(edit);
        assert(edit_views(edits@) =~= seq![edit@]);
    }
    let ghost duration = edit_views(edits@);
    if relative {
        match (pred.pitch, leading_note(note)) {
            (Some(outer), Some((span, pitch))) => match octave_fix(document, span, pitch, outer) {
                Some(edit) => {
                    edits.push(edit);
                    assert(edit_views(edits@) =~= duration + seq![edit@]);
                },
                None => {},
            },
            _ => {},
        }
    }
    assert(edit_views(edits@) =~= note_edits(*document, *note, pred@, relative));
    edits
}

/// What each of a run of texts holds.
pub open spec fn held(texts: Seq<String>) -> Seq<Seq<char>> {
    texts.map_values(|text: String| text@)
}

fn join(segments: &Vec<String>, separator: &str) -> (r: String)
    ensures
        r@ == joined(held(segments@), separator@),
{
    let mut out = String::new();
    let ghost all = held(segments@);
    let mut k: usize = 0;
    assert(all.subrange(0, 0) =~= Seq::empty());
    while k < segments.len()
        invariant
            k <= segments@.len(),
            all == held(segments@),
            out@ == joined(all.subrange(0, k as int), separator@),
        decreases segments.len() - k,
    {
        assert(all.subrange(0, k + 1).drop_last() =~= all.subrange(0, k as int));
        assert(all.subrange(0, k + 1).last() == segments@[k as int]@);
        if !segments[k].as_str().is_empty() {
            let ghost before = out@;
            if !out.as_str().is_empty() {
                out.append(separator);
                out.append(segments[k].as_str());
            } else {
                out.append(segments[k].as_str());
                assert(out@ =~= segments@[k as int]@);
            }
        }
        k = k + 1;
    }
    assert(all.subrange(0, k as int) =~= all);
    out
}

/// Lays down the copies and endings of a repeat.
fn lay_down(
    document: &Document,
    repeat: &Repeat,
    body_events: &Vec<usize>,
    relative: bool,
    pred: &mut Pred,
) -> (r: Vec<String>)
    requires
        document.wf(),
        body_events@ == kept(
            document.events().len() as int,
            event_in(document.events(), repeat.repeated),
        ),
        forall|k: int|
            0 <= k < body_events@.len() ==> (#[trigger] body_events@[k]) < document.events().len(),
        relative == reads_relative(document.events(), body_events@),
    ensures
        (held(r@), final(pred)@) == segments(*document, *repeat, old(pred)@, repeat.count as int),
{
    let src = document.text.as_str();
    let events = &document.notes.events;
    let calls = &document.notes.commands.calls;
    let voltas = voltas_in(calls, repeat.repeated);
    let endings = match repeat.alternative {
        Some(alt) => parse_endings(document, alt),
        None => Vec::new(),
    };
    assert(ending_views(endings@) =~= repeat_endings(*document, *repeat));
    let ghost start = pred@;
    let mut out: Vec<String> = Vec::new();
    let mut r: u32 = 0;
    assert(held(out@) =~= Seq::empty());
    while r < repeat.count
        invariant
            document.wf(),
            r <= repeat.count,
            src@ == document.text@,
            events@ == document.events(),
            calls@ == document.calls(),
            voltas@ == kept(
                calls@.len() as int,
                volta_in(calls@, repeat.repeated.start as int, repeat.repeated.end as int),
            ),
            forall|k: int| 0 <= k < voltas@.len() ==> (#[trigger] voltas@[k]) < calls@.len(),
            body_events@ == kept(events@.len() as int, event_in(events@, repeat.repeated)),
            forall|k: int|
                0 <= k < body_events@.len() ==> (#[trigger] body_events@[k]) < events@.len(),
            relative == reads_relative(events@, body_events@),
            ending_views(endings@) == repeat_endings(*document, *repeat),
            (held(out@), pred@) == segments(*document, *repeat, start, r as int),
        decreases repeat.count - r,
    {
        r = r + 1;
        let ghost before = held(out@);
        let copy = render_body(
            src,
            repeat.repeated,
            events,
            body_events,
            calls,
            &voltas,
            r,
            relative,
            pred,
        );
        out.push(copy);
        assert(held(out@) =~= before.push(copy@));
        match ending_for(r, repeat.count, &endings) {
            Some(k) => {
                let ghost mid = held(out@);
                let span = endings[k].span;
                assert(ending_views(endings@)[k as int].span == span);
                let inside = events_in(document, span);
                let none: Vec<Splice> = Vec::new();
                assert(splice_views(none@) =~= Seq::empty());
                let text = render(src, span, events, &inside, none, relative, pred);
                out.push(text);
                assert(held(out@) =~= mid.push(text@));
            },
            None => {},
        }
    }
    out
}

/// Builds the edits that replace the construct with its unfolded music, plus any fix to the note
/// following it.
pub fn unfold(document: &Document, repeat: &Repeat) -> (r: Vec<TextEdit>)
    requires
        document.wf(),
    ensures
        edit_views(r@) == unfolded(*document, *repeat),
{
    let src = document.text.as_str();
    let repeated = repeat.repeated;
    let events = &document.notes.events;
    let body_events = events_in(document, repeated);
    // Seed the running predecessor from the state in force just before the body: the first body
    // event carries the relative reference and inherited duration.
    let mut relative: bool = false;
    let mut pred = Pred { pitch: None, duration: Duration::standard() };
    if body_events.len() > 0 {
        let first = &events[body_events[0]];
        pred.duration = first.duration.copy();
        match &first.relative {
            Some(reference) => {
                relative = true;
                pred.pitch = Some(reference.pitch);
            },
            None => {},
        }
    }
    assert(pred@ == seed(events@, body_events@));
    let parts = lay_down(document, repeat, &body_events, relative, &mut pred);
    // A body that spans lines unfolds with each copy on its own line, indented to match the
    // `\repeat` it replaces.
    let separator = if holds(cut(src, repeat.body.start, repeat.body.end), '\n') {
        let mut text = "\n".to_string();
        text.append(line_indent(src, repeat.start));
        text
    } else {
        " ".to_string()
    };
    let music = join(&parts, separator.as_str());
    let new_text = match repeat.block {
        Some(_) => music,
        None => {
            let mut text = "{ ".to_string();
            text.append(music.as_str());
            text.append(" }");
            text
        },
    };
    let mut edits: Vec<TextEdit> = Vec::new();
    let edit = TextEdit {
        range: document.line_index.range_of(Span::new(repeat.start, repeat.end)),
        new_text,
    };
    edits.push(edit);
    assert(edit_views(edits@) =~= seq![edit@]);
    let mut following = following_note_edits(document, repeat, &pred, relative);
    let ghost one = edits@;
    let ghost more = following@;
    edits.append(&mut following);
    assert(edit_views(edits@) =~= edit_views(one) + edit_views(more));
    edits
}

/// Unfold the repeat whose header the cursor is on.
pub struct InlineRepeats;

impl CodeAction for InlineRepeats {
    open spec fn title() -> Seq<char> {
        "Unfold repeat"@
    }

    open spec fn kind() -> ActionKind {
        ActionKind::RefactorInline
    }

    open spec fn applies(document: Document, selection: Range) -> bool {
        repeat_selected(document, selection) is Some
    }

    open spec fn outcome(document: Document, selection: Range) -> Option<ResolvedView> {
        match repeat_selected(document, selection) {
            Some(repeat) => Some(
                ResolvedView { edits: unfolded(document, repeat), command: None },
            ),
            None => None,
        }
    }

    fn offer(document: &Document, selection: Range) -> (r: Option<Offer>) {
        match repeat_at(document, selection) {
            Some(_) => Some(
                Offer { title: "Unfold repeat".to_string(), kind: ActionKind::RefactorInline },
            ),
            None => None,
        }
    }

    fn resolve(document: &Document, selection: Range) -> (r: Option<Resolved>) {
        match repeat_at(document, selection) {
            Some(repeat) => Some(Resolved { edits: unfold(document, &repeat), command: None }),
            None => None,
        }
    }
}

/// Every listed event has its duration written.
pub open spec fn all_written(events: Seq<Event>, at: Seq<usize>) -> bool {
    forall|k: int| 0 <= k < at.len() ==> events[(#[trigger] at[k]) as int].duration_written
}

proof fn lemma_nothing_to_fix(src: Seq<char>, events: Seq<Event>, at: Seq<usize>, pred: PredView)
    requires
        all_written(events, at),
    ensures
        run_fixes(src, events, at, false, pred).0.len() == 0,
    decreases at.len(),
{
    if at.len() > 0 {
        assert(at[at.len() - 1] == at.last());
        assert forall|k: int| 0 <= k < at.drop_last().len() implies events[(#[trigger] at.drop_last()[k]) as int].duration_written by {
            assert(at[k] == at.drop_last()[k]);
        }
        lemma_nothing_to_fix(src, events, at.drop_last(), pred);
    }
}

proof fn lemma_all_survive(
    events: Seq<Event>,
    at: Seq<usize>,
    calls: Seq<CommandCall>,
    voltas: Seq<usize>,
    r: u32,
)
    requires
        voltas.len() == 0,
    ensures
        surviving(events, at, calls, voltas, r) == at,
    decreases at.len(),
{
    if at.len() > 0 {
        lemma_all_survive(events, at.drop_last(), calls, voltas, r);
        assert(at.drop_last().push(at.last()) =~= at);
    }
}

/// As many copies of the music of a repeat.
pub open spec fn copies(document: Document, repeat: Repeat, r: int) -> Seq<Seq<char>> {
    Seq::new(
        r as nat,
        |k: int|
            trimmed(
                cut_of(
                    document.text@,
                    repeat.repeated.start as int,
                    repeat.repeated.end as int,
                ),
            ),
    )
}

/// A repeat of music that says everything, in absolute octaves and with every duration written,
/// unfolds into that many copies of its text.
pub proof fn law_explicit_music_unfolds_into_copies(
    document: Document,
    repeat: Repeat,
    pred: PredView,
    r: int,
)
    requires
        0 <= r,
        repeat.alternative is None,
        ({
            let events = document.events();
            let calls = document.calls();
            let at = kept(events.len() as int, event_in(events, repeat.repeated));
            let voltas = kept(
                calls.len() as int,
                volta_in(calls, repeat.repeated.start as int, repeat.repeated.end as int),
            );
            &&& voltas.len() == 0
            &&& !reads_relative(events, at)
            &&& all_written(events, at)
        }),
    ensures
        segments(document, repeat, pred, r).0 == copies(document, repeat, r),
    decreases r,
{
    if r > 0 {
        law_explicit_music_unfolds_into_copies(document, repeat, pred, r - 1);
        let events = document.events();
        let calls = document.calls();
        let src = document.text@;
        let at = kept(events.len() as int, event_in(events, repeat.repeated));
        let voltas = kept(
            calls.len() as int,
            volta_in(calls, repeat.repeated.start as int, repeat.repeated.end as int),
        );
        let (before, state) = segments(document, repeat, pred, r - 1);
        lemma_all_survive(events, at, calls, voltas, r as u32);
        lemma_nothing_to_fix(src, events, at, state);
        let edits = body_splices(
            src,
            repeat.repeated,
            calls,
            voltas,
            r as u32,
            voltas.len() as int,
        ) + run_fixes(src, events, at, false, state).0;
        assert(edits.len() == 0);
        assert(latest_first(edits).len() == 0);
        assert(segments(document, repeat, pred, r).0 =~= copies(document, repeat, r));
    } else {
        assert(segments(document, repeat, pred, r).0 =~= copies(document, repeat, r));
    }
}

/// What plays of the music of a repeat on its `r`-th time: its text without the voltas that do not
/// play then, and with those that do play unwrapped.
pub open spec fn played(document: Document, repeat: Repeat, r: u32) -> Seq<char> {
    let calls = document.calls();
    let body = repeat.repeated;
    let voltas = kept(calls.len() as int, volta_in(calls, body.start as int, body.end as int));
    trimmed(
        spliced(
            cut_of(document.text@, body.start as int, body.end as int),
            body.start as int,
            latest_first(
                body_splices(document.text@, body, calls, voltas, r, voltas.len() as int),
            ),
        ),
    )
}

/// What plays the first `r` times: each time what plays of the music, and then the text of the ending
/// that the time has, if it has one.
pub open spec fn playing(document: Document, repeat: Repeat, r: int) -> Seq<Seq<char>>
    decreases r,
{
    if r <= 0 {
        Seq::empty()
    } else {
        let before = playing(document, repeat, r - 1).push(played(document, repeat, r as u32));
        let endings = repeat_endings(document, repeat);
        match ending_of(r as u32, repeat.count, endings) {
            Some(k) => {
                let span = endings[k as int].span;
                before.push(trimmed(cut_of(document.text@, span.start as int, span.end as int)))
            },
            None => before,
        }
    }
}

proof fn lemma_survivors_written(
    events: Seq<Event>,
    at: Seq<usize>,
    calls: Seq<CommandCall>,
    voltas: Seq<usize>,
    r: u32,
)
    requires
        all_written(events, at),
    ensures
        all_written(events, surviving(events, at, calls, voltas, r)),
    decreases at.len(),
{
    if at.len() > 0 {
        assert(at[at.len() - 1] == at.last());
        assert forall|k: int| 0 <= k < at.drop_last().len() implies events[(
        #[trigger] at.drop_last()[k]) as int].duration_written by {
            assert(at[k] == at.drop_last()[k]);
        }
        lemma_survivors_written(events, at.drop_last(), calls, voltas, r);
    }
}

/// Music that says everything, in absolute octaves and with every duration written, unfolds into its
/// own text: for each time what plays of the body then, followed by the ending of that time.
pub proof fn law_explicit_music_unfolds_into_what_plays(
    document: Document,
    repeat: Repeat,
    pred: PredView,
    r: int,
)
    requires
        0 <= r <= repeat.count,
        ({
            let events = document.events();
            let at = kept(events.len() as int, event_in(events, repeat.repeated));
            let endings = repeat_endings(document, repeat);
            &&& !reads_relative(events, at)
            &&& all_written(events, at)
            &&& forall|k: int|
                0 <= k < endings.len() ==> all_written(
                    events,
                    kept(events.len() as int, event_in(events, (#[trigger] endings[k]).span)),
                )
            &&& endings.len() <= usize::MAX
        }),
    ensures
        segments(document, repeat, pred, r).0 == playing(document, repeat, r),
    decreases r,
{
    if r > 0 {
        law_explicit_music_unfolds_into_what_plays(document, repeat, pred, r - 1);
        let events = document.events();
        let calls = document.calls();
        let src = document.text@;
        let at = kept(events.len() as int, event_in(events, repeat.repeated));
        let voltas = kept(
            calls.len() as int,
            volta_in(calls, repeat.repeated.start as int, repeat.repeated.end as int),
        );
        let (before, state) = segments(document, repeat, pred, r - 1);
        let left = surviving(events, at, calls, voltas, r as u32);
        lemma_survivors_written(events, at, calls, voltas, r as u32);
        lemma_nothing_to_fix(src, events, left, state);
        let splices = body_splices(
            src,
            repeat.repeated,
            calls,
            voltas,
            r as u32,
            voltas.len() as int,
        );
        assert(splices + run_fixes(src, events, left, false, state).0 =~= splices);
        let after = run_fixes(src, events, left, false, state).1;
        let endings = repeat_endings(document, repeat);
        match ending_of(r as u32, repeat.count, endings) {
            Some(k) => {
                lemma_first_from(0, endings.len() as int, tagged(endings, r as u32));
                let inside = kept(events.len() as int, event_in(events, endings[k as int].span));
                assert(all_written(events, inside));
                lemma_nothing_to_fix(src, events, inside, after);
                let fixes = Seq::<SpliceView>::empty() + run_fixes(
                    src,
                    events,
                    inside,
                    false,
                    after,
                ).0;
                assert(fixes.len() == 0);
                assert(latest_first(fixes).len() == 0);
            },
            None => {},
        }
        assert(segments(document, repeat, pred, r).0 =~= playing(document, repeat, r));
    }
}

} // verus!
