//! Inlining undoes extraction: the music that "Extract to variable" puts in braces is the music that
//! inlining the definition writes back.
use vstd::prelude::*;
use vstd::utf8::*;
use crate::assignment::trimmed_span;
use crate::document::Document;
use crate::finding::{first_from, kept, lemma_first_from, lemma_kept};
use crate::line_struct::{Span, lemma_offset_boundary, offset_of, range_between};
use crate::notes::Event;
use crate::protocol::{EditView, Range};
use crate::syntax::children_of;
use crate::text::{
    all_white, can_cut, cut_of, leading_white, lemma_around_piece, lemma_ascii_len,
    lemma_bytes_injective, lemma_encode_concat, lemma_piece_bytes, lemma_replaced_inside,
    lemma_white_counts, piece, replaced, trailing_white, trimmed, trimmed_end, trimmed_range,
    trimmed_start, white,
};
use super::CodeAction;
use super::extract_to_variable::{
    ExtractToVariable, breaks, extractable, extracted_content, extracted_music, extracted_wrapping,
    in_braces, selected_events,
};
use super::inline_repeats::blanks;
use super::inline_variable::{
    DefinitionView, InlineAll, RhsShape, around_relative, definition_selected, first_note_splices,
    inlined, inlined_at, inside_block, overlapping, references_to, spliced_in, strips,
    surroundings_of,
};
use super::splice::{SpliceView, latest_first, spliced};

verus! {

/// Whether a text neither starts nor ends with white space, and is not empty.
pub open spec fn tight(text: Seq<char>) -> bool {
    text.len() > 0 && !white(text[0]) && !white(text.last())
}

/// What stands between the first and the last character of a text.
pub open spec fn interior(text: Seq<char>) -> Seq<char> {
    text.subrange(1, text.len() - 1)
}

proof fn lemma_leading_white(space: Seq<char>, rest: Seq<char>)
    requires
        all_white(space),
        rest.len() > 0,
        !white(rest[0]),
    ensures
        leading_white(space + rest) == space.len(),
    decreases space.len(),
{
    let whole = space + rest;
    if space.len() > 0 {
        assert(white(space[0]));
        assert(whole.drop_first() =~= space.drop_first() + rest);
        assert forall|i: int| 0 <= i < space.drop_first().len() implies white(
            #[trigger] space.drop_first()[i],
        ) by {
            assert(white(space[i + 1]));
        }
        lemma_leading_white(space.drop_first(), rest);
    } else {
        assert(whole[0] == rest[0]);
    }
}

proof fn lemma_trailing_white(rest: Seq<char>, space: Seq<char>)
    requires
        all_white(space),
        rest.len() > 0,
        !white(rest.last()),
    ensures
        trailing_white(rest + space) == space.len(),
    decreases space.len(),
{
    let whole = rest + space;
    if space.len() > 0 {
        assert(white(space[space.len() - 1]));
        assert(whole.drop_last() =~= rest + space.drop_last());
        assert forall|i: int| 0 <= i < space.drop_last().len() implies white(
            #[trigger] space.drop_last()[i],
        ) by {
            assert(white(space[i]));
        }
        lemma_trailing_white(rest, space.drop_last());
    } else {
        assert(whole =~= rest);
    }
}

/// White space around a text is all that trimming takes off.
pub proof fn lemma_trimmed(before: Seq<char>, content: Seq<char>, behind: Seq<char>)
    requires
        all_white(before),
        tight(content),
        all_white(behind),
    ensures
        trimmed_start(before + content + behind) == content + behind,
        trimmed_end(before + content + behind) == before + content,
        trimmed(before + content + behind) == content,
{
    let whole = before + content + behind;
    assert(whole =~= before + (content + behind));
    lemma_leading_white(before, content + behind);
    lemma_trailing_white(before + content, behind);
    lemma_trailing_white(content, behind);
    assert(trimmed_start(whole) =~= content + behind);
    assert(trimmed_end(whole) =~= before + content);
    assert(trimmed_end(content + behind) =~= content);
}

proof fn lemma_blanks(text: Seq<char>, from: int)
    requires
        0 <= from <= text.len(),
    ensures
        from + blanks(text, from) <= text.len(),
        all_white(text.subrange(from, from + blanks(text, from))),
    decreases text.len() - from,
{
    if from < text.len() && (text[from] == ' ' || text[from] == '\t') {
        lemma_blanks(text, from + 1);
        let n = blanks(text, from + 1) as int;
        assert forall|i: int| 0 <= i < n + 1 implies white(
            #[trigger] text.subrange(from, from + n + 1)[i],
        ) by {
            if i > 0 {
                assert(white(text.subrange(from + 1, from + 1 + n)[i - 1]));
            }
        }
        assert(blanks(text, from) == n + 1);
        assert(from + blanks(text, from) == from + n + 1);
    }
}

/// What stands before the music in the braces that extraction writes.
spec fn opening(content: Seq<char>) -> Seq<char> {
    match first_from(0, content.len() as int, breaks(content)) {
        Some(k) => {
            let rest = content.subrange(k + 1, content.len() as int);
            "\n"@ + rest.subrange(0, blanks(rest, 0) as int)
        },
        None => " "@,
    }
}

/// What stands behind it.
spec fn closing(content: Seq<char>) -> Seq<char> {
    match first_from(0, content.len() as int, breaks(content)) {
        Some(_) => "\n"@,
        None => " "@,
    }
}

proof fn lemma_interior(content: Seq<char>)
    requires
        content.len() <= usize::MAX,
    ensures
        all_white(opening(content)),
        all_white(closing(content)),
        interior(in_braces(content)) == opening(content) + content + closing(content),
{
    reveal_strlit("{\n");
    reveal_strlit("\n}");
    reveal_strlit("\n");
    reveal_strlit("{ ");
    reveal_strlit(" }");
    reveal_strlit(" ");
    lemma_first_from(0, content.len() as int, breaks(content));
    match first_from(0, content.len() as int, breaks(content)) {
        Some(k) => {
            let first = content.subrange(0, k as int);
            let rest = content.subrange(k + 1, content.len() as int);
            let indent = rest.subrange(0, blanks(rest, 0) as int);
            lemma_blanks(rest, 0);
            assert(content =~= first + "\n"@ + rest);
            assert forall|i: int| 0 <= i < opening(content).len() implies white(
                #[trigger] opening(content)[i],
            ) by {
                if i > 0 {
                    assert(white(indent[i - 1]));
                }
            }
            assert(interior(in_braces(content)) =~= "\n"@ + indent + content + "\n"@);
        },
        None => {
            assert(interior(in_braces(content)) =~= " "@ + content + " "@);
        },
    }
}

/// The place where a text starts inside another one is a boundary of that one.
proof fn lemma_starts_on_boundary(bytes: Seq<u8>, at: int, text: Seq<char>)
    requires
        valid_utf8(bytes),
        0 <= at,
        text.len() > 0,
        at + encode_utf8(text).len() <= bytes.len(),
        bytes.subrange(at, at + encode_utf8(text).len()) == encode_utf8(text),
    ensures
        is_char_boundary(bytes, at),
        encode_utf8(text).len() > 0,
{
    let own = encode_utf8(text);
    if own.len() == 0 {
        assert(own =~= encode_utf8(Seq::<char>::empty()));
        lemma_bytes_injective(text, Seq::empty());
    }
    encode_utf8_valid_utf8(text);
    is_char_boundary_start_end_of_seq(own);
    is_char_boundary_iff_not_is_continuation_byte(own, 0);
    is_char_boundary_iff_not_is_continuation_byte(bytes, at);
    assert(bytes.subrange(at, at + own.len())[0] == bytes[at]);
}

/// Trimming a range that holds a text between white space leaves the range of that text.
pub proof fn lemma_trimmed_range(
    src: Seq<char>,
    from: int,
    to: int,
    before: Seq<char>,
    content: Seq<char>,
    behind: Seq<char>,
)
    requires
        cut_of(src, from, to) == before + content + behind,
        all_white(before),
        tight(content),
        all_white(behind),
        encode_utf8(src).len() <= usize::MAX,
    ensures
        ({
            let (start, end) = trimmed_range(src, from, to);
            &&& 0 <= start <= end <= encode_utf8(src).len()
            &&& cut_of(src, start, end) == content
        }),
{
    let raw = before + content + behind;
    let bytes = encode_utf8(src);
    let a = encode_utf8(before);
    let b = encode_utf8(content);
    let c = encode_utf8(behind);
    assert(raw.len() > 0);
    assert(can_cut(src, from, to));
    encode_utf8_valid_utf8(src);
    lemma_piece_bytes(src, from, to);
    lemma_trimmed(before, content, behind);
    lemma_encode_concat(before + content, behind);
    lemma_encode_concat(before, content);
    lemma_encode_concat(content, behind);
    let (start, end) = trimmed_range(src, from, to);
    assert(start == from + a.len());
    assert(end == to - c.len());
    assert(bytes.subrange(from, to) == a + b + c);
    assert(bytes.subrange(start, end) =~= b) by {
        assert(bytes.subrange(from, to).subrange(a.len() as int, (a.len() + b.len()) as int) =~= b);
    }
    lemma_starts_on_boundary(bytes, start, content);
    if behind.len() > 0 {
        assert(bytes.subrange(end, end + c.len()) =~= c) by {
            assert(bytes.subrange(from, to).subrange((a.len() + b.len()) as int, to - from) =~= c);
        }
        lemma_starts_on_boundary(bytes, end, behind);
    } else {
        assert(behind =~= Seq::<char>::empty());
        assert(c.len() == 0);
    }
    lemma_piece_bytes(src, start, end);
    lemma_bytes_injective(piece(src, start, end), content);
}

/// What the braces hold that extraction puts around music, once the white space at the ends is left
/// out, is that music.
pub proof fn law_braces_hold_what_was_put_in_them(content: Seq<char>)
    requires
        tight(content),
        content.len() <= usize::MAX,
    ensures
        trimmed(interior(in_braces(content))) == content,
{
    lemma_interior(content);
    lemma_trimmed(opening(content), content, closing(content));
}

/// The white space that leads and trails a text is white space, and what is next to it is not.
pub proof fn lemma_white_ends(text: Seq<char>)
    ensures
        leading_white(text) <= text.len(),
        trailing_white(text) <= text.len(),
        all_white(text.subrange(0, leading_white(text) as int)),
        all_white(text.subrange(text.len() - trailing_white(text), text.len() as int)),
        leading_white(text) < text.len() ==> !white(text[leading_white(text) as int]) && !white(
            text[text.len() - trailing_white(text) - 1],
        ) && leading_white(text) + trailing_white(text) < text.len(),
    decreases text.len(),
{
    lemma_white_counts(text);
    lemma_leading_end(text);
    lemma_trailing_end(text);
    let n = leading_white(text) as int;
    let m = text.len() - trailing_white(text);
    if n < text.len() {
        if m <= n {
            assert(white(text.subrange(m, text.len() as int)[n - m]));
        }
    }
}

proof fn lemma_leading_end(text: Seq<char>)
    ensures
        leading_white(text) <= text.len(),
        all_white(text.subrange(0, leading_white(text) as int)),
        leading_white(text) < text.len() ==> !white(text[leading_white(text) as int]),
    decreases text.len(),
{
    if text.len() > 0 && white(text[0]) {
        let rest = text.drop_first();
        lemma_leading_end(rest);
        let n = leading_white(rest) as int;
        assert forall|i: int| 0 <= i < n + 1 implies white(#[trigger] text.subrange(0, n + 1)[i]) by {
            if i > 0 {
                assert(white(rest.subrange(0, n)[i - 1]));
            }
        }
    }
}

proof fn lemma_trailing_end(text: Seq<char>)
    ensures
        trailing_white(text) <= text.len(),
        all_white(text.subrange(text.len() - trailing_white(text), text.len() as int)),
        trailing_white(text) < text.len() ==> !white(text[text.len() - trailing_white(text) - 1]),
    decreases text.len(),
{
    if text.len() > 0 && white(text.last()) {
        let rest = text.drop_last();
        lemma_trailing_end(rest);
        let n = trailing_white(rest) as int;
        let own = text.subrange(text.len() - n - 1, text.len() as int);
        assert forall|i: int| 0 <= i < own.len() implies white(#[trigger] own[i]) by {
            if i < n {
                assert(white(rest.subrange(rest.len() - n, rest.len() as int)[i]));
            }
        }
    }
}

/// What is selected for extraction has no white space at its ends.
proof fn lemma_selected_tight(document: Document, selection: Range)
    requires
        document.bytes().len() <= usize::MAX,
        extractable(document, selection) is Some,
    ensures
        ({
            let found = extractable(document, selection)->0;
            tight(cut_of(document.text@, found.start as int, found.end as int))
        }),
{
    let src = document.text@;
    let from = offset_of(document.bytes(), selection.start)->0;
    let to = offset_of(document.bytes(), selection.end)->0;
    lemma_offset_boundary(src, selection.start);
    lemma_offset_boundary(src, selection.end);
    assert(can_cut(src, from, to));
    let raw = cut_of(src, from, to);
    lemma_piece_bytes(src, from, to);
    lemma_white_ends(raw);
    let n = leading_white(raw) as int;
    let m = raw.len() - trailing_white(raw);
    let (start, end) = trimmed_range(src, from, to);
    if n < raw.len() {
        let content = raw.subrange(n, m);
        let before = raw.subrange(0, n);
        let behind = raw.subrange(m, raw.len() as int);
        assert(raw =~= before + content + behind);
        lemma_trimmed_range(src, from, to, before, content, behind);
    } else {
        assert(trimmed_start(raw) =~= Seq::empty());
        assert(encode_utf8(Seq::<char>::empty()).len() == 0);
        lemma_encode_concat(trimmed_end(raw), raw.subrange(m, raw.len() as int));
        assert(raw =~= trimmed_end(raw) + raw.subrange(m, raw.len() as int));
        assert(start >= to);
        assert(start >= end);
    }
}

/// Text written into a text without white space at its ends, which has none itself, leaves none.
proof fn lemma_tight_insert(text: Seq<char>, at: int, with: Seq<char>)
    requires
        tight(text),
        tight(with),
    ensures
        tight(replaced(text, at, at, with)),
{
    if can_cut(text, at, at) {
        lemma_around_piece(text, at, at);
        let before = piece(text, 0, at);
        let none = piece(text, at, at);
        let behind = piece(text, at, encode_utf8(text).len() as int);
        lemma_piece_bytes(text, at, at);
        assert(encode_utf8(none) =~= encode_utf8(Seq::<char>::empty()));
        lemma_bytes_injective(none, Seq::empty());
        assert(text =~= before + behind);
    }
}

/// The music that is extracted has no white space at its ends.
pub proof fn lemma_extracted_tight(document: Document, selection: Range)
    requires
        document.bytes().len() <= usize::MAX,
        extractable(document, selection) is Some,
        durations_tight(document.events()),
    ensures
        tight(extracted_content(document, extractable(document, selection)->0)),
{
    let found = extractable(document, selection)->0;
    let events = document.events();
    let at = selected_events(document, found);
    let raw = cut_of(document.text@, found.start as int, found.end as int);
    lemma_selected_tight(document, selection);
    if at.len() > 0 && !events[at[0] as int].duration_written {
        let place = events[at[0] as int].value_end - found.start;
        let span = Span { start: found.start, end: found.end };
        assert(events.len() == document.notes.events.len());
        lemma_kept(events.len() as int, overlapping(events, span));
        lemma_tight_insert(raw, place, events[at[0] as int].duration@);
    }
}

/// Whether every duration is spelled as something, without white space at its ends.
pub open spec fn durations_tight(events: Seq<Event>) -> bool {
    forall|k: int| 0 <= k < events.len() ==> tight((#[trigger] events[k]).duration@)
}

/// Whether a definition is written as the block `block`, or as a `\relative` one, that reads `text`
/// from its opening to its closing brace.
pub open spec fn is_block_of(document: Document, def: DefinitionView, block: int, text: Seq<char>) -> bool {
    let nodes = document.nodes();
    let row = children_of(nodes, block);
    let inner = inside_block(nodes, document.text@, block);
    &&& def.shape == (RhsShape::Block { inner }) || def.shape == (RhsShape::RelativeBlock { inner })
    &&& cut_of(document.text@, nodes[block].start as int, nodes[block].end as int) == text
    &&& row.len() > 0
    &&& nodes[row[0] as int].end == nodes[block].start + 1
    &&& nodes[row.last() as int].start + 1 == nodes[block].end
}

/// What the extent inside the braces of a block that extraction wrote reads.
proof fn lemma_block_reads(document: Document, def: DefinitionView, block: int, content: Seq<char>)
    requires
        tight(content),
        content.len() <= usize::MAX,
        document.bytes().len() <= usize::MAX,
        is_block_of(document, def, block, in_braces(content)),
    ensures
        ({
            let inner = inside_block(document.nodes(), document.text@, block);
            cut_of(document.text@, inner.start as int, inner.end as int) == content
        }),
{
    let src = document.text@;
    let start = document.nodes()[block].start as int;
    let end = document.nodes()[block].end as int;
    let whole = in_braces(content);
    lemma_interior(content);
    reveal_strlit("{\n");
    reveal_strlit("\n}");
    reveal_strlit("{ ");
    reveal_strlit(" }");
    assert(whole.len() >= 2 && whole[0] == '{' && whole.last() == '}');
    assert(can_cut(src, start, end));
    let open = seq!['{'];
    let close = seq!['}'];
    assert(whole =~= open + interior(whole) + close);
    lemma_ascii_len(open);
    lemma_ascii_len(close);
    lemma_replaced_inside(src, start, end, open, interior(whole), close, Seq::empty());
    assert(cut_of(src, start + 1, end - 1) == interior(whole));
    lemma_trimmed_range(src, start + 1, end - 1, opening(content), content, closing(content));
    assert(inside_block(document.nodes(), src, block) == trimmed_span(src, start + 1, end - 1));
}

/// The splices that make the first note of a definition explicit at a reference.
pub open spec fn splices_at(document: Document, def: DefinitionView, reference: Span) -> Seq<SpliceView> {
    let events = document.events();
    let around = surroundings_of(document, reference);
    let (span, strip) = spliced_in(def, around.in_block, around_relative(events, around));
    let at = kept(events.len() as int, overlapping(events, span));
    first_note_splices(document.text@, events, at, around, strip)
}

/// Where in the text the splices of a definition at a reference count from.
pub open spec fn splice_base(document: Document, def: DefinitionView, reference: Span) -> int {
    let around = surroundings_of(document, reference);
    spliced_in(def, around.in_block, around_relative(document.events(), around)).0.start as int
}

/// Extraction and inlining are inverse: where a definition is the block that extraction writes for
/// some music, on its own or behind `\relative`, inlining it at a reference that takes its braces
/// away writes that music there, with what its first note has to have made explicit; and exactly that
/// music where it has nothing to be made explicit.
pub proof fn law_inlining_undoes_extraction(
    document: Document,
    def: DefinitionView,
    block: int,
    content: Seq<char>,
    reference: Span,
)
    requires
        tight(content),
        content.len() <= usize::MAX,
        document.bytes().len() <= usize::MAX,
        is_block_of(document, def, block, in_braces(content)),
        reference.start <= reference.end,
        ({
            let around = surroundings_of(document, reference);
            strips(def, around.in_block, around_relative(document.events(), around))
        }),
    ensures
        inlined(document, def, reference) is Some,
        inlined(document, def, reference)->0.len() > 0,
        inlined(document, def, reference)->0[0].range == range_between(document.bytes(), reference),
        inlined(document, def, reference)->0[0].new_text == spliced(
            content,
            splice_base(document, def, reference),
            latest_first(splices_at(document, def, reference)),
        ),
        splices_at(document, def, reference).len() == 0 ==> inlined(
            document,
            def,
            reference,
        )->0[0].new_text == content,
{
    lemma_block_reads(document, def, block, content);
    let splices = splices_at(document, def, reference);
    if splices.len() == 0 {
        assert(latest_first(splices).len() == 0);
    }
}

/// Extracting a selection and inlining what it became give the music back. `before` is the document
/// that music was selected in, and `after` one that reads as the extraction leaves it: a definition
/// there, named once, is what the extraction wrote.
///
/// The extraction replaces exactly the selection by `\music`. Inlining all then replaces that
/// reference: by the music, where it was put in braces and the place takes them away, and by the
/// whole right-hand side otherwise, in either case with what its first note has to have made
/// explicit; and it removes the definition. The music is what was selected, with the duration of its
/// first note written out.
pub proof fn law_inline_all_undoes_extract_to_variable(
    before: Document,
    selected: Range,
    after: Document,
    named: Range,
    block: int,
)
    requires
        before.bytes().len() <= usize::MAX,
        after.bytes().len() <= usize::MAX,
        durations_tight(before.events()),
        ExtractToVariable::outcome(before, selected) is Some,
        extracted_content(before, extractable(before, selected)->0).len() <= usize::MAX,
        definition_selected(after, named) is Some,
        ({
            let found = extractable(before, selected)->0;
            let def = definition_selected(after, named)->0;
            let at = references_to(after, def.name);
            &&& cut_of(after.text@, def.rhs.start as int, def.rhs.end as int) == extracted_music(
                before,
                found,
            )
            &&& at.len() == 1
            &&& at[0] < after.references@.len()
            &&& after.references@[at[0] as int].span.start <= after.references@[at[0] as int].span.end
            &&& extracted_wrapping(before, found) is Braces && !(def.shape is Other)
                ==> is_block_of(after, def, block, in_braces(extracted_content(before, found)))
        }),
    ensures
        ({
            let found = extractable(before, selected)->0;
            let taken = ExtractToVariable::outcome(before, selected)->0.edits;
            let def = definition_selected(after, named)->0;
            let reference = after.references@[references_to(after, def.name)[0] as int].span;
            let around = surroundings_of(after, reference);
            let stripped = strips(
                def,
                around.in_block,
                around_relative(after.events(), around),
            );
            let given = InlineAll::outcome(after, named)->0.edits;
            let splices = latest_first(splices_at(after, def, reference));
            let base = splice_base(after, def, reference);
            &&& taken.len() >= 2
            &&& taken[0].new_text == "music = "@ + extracted_music(before, found) + "\n\n"@
            &&& taken[1] == (EditView {
                range: range_between(before.bytes(), Span { start: found.start, end: found.end }),
                new_text: "\\music"@,
            })
            &&& InlineAll::outcome(after, named) is Some
            &&& given.len() >= 2
            &&& given[0].range == range_between(after.bytes(), reference)
            &&& !stripped ==> given[0].new_text == spliced(
                extracted_music(before, found),
                base,
                splices,
            )
            &&& stripped && extracted_wrapping(before, found) is Braces ==> given[0].new_text
                == spliced(extracted_content(before, found), base, splices)
            &&& given.last() == (EditView {
                range: range_between(after.bytes(), def.delete),
                new_text: Seq::empty(),
            })
        }),
{
    let found = extractable(before, selected)->0;
    let def = definition_selected(after, named)->0;
    let at = references_to(after, def.name);
    let reference = after.references@[at[0] as int].span;
    let around = surroundings_of(after, reference);
    let content = extracted_content(before, found);
    lemma_extracted_tight(before, selected);
    reveal_with_fuel(inlined_at, 2);
    assert(inlined_at(after, def, at, 1) == inlined(after, def, reference)) by {
        let edits = inlined(after, def, reference)->0;
        assert(Seq::<EditView>::empty() + edits =~= edits);
    }
    if strips(def, around.in_block, around_relative(after.events(), around)) {
        if extracted_wrapping(before, found) is Braces {
            law_inlining_undoes_extraction(after, def, block, content, reference);
        }
    }
}

} // verus!
