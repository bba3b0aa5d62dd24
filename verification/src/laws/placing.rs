//! Where refactorings put what they write, and what they take away.
use vstd::prelude::*;
use vstd::utf8::*;
use crate::assignment::{rhs_first, rhs_past};
use crate::code_action::CodeAction;
use crate::code_action::extract_to_variable::{
    ExtractToVariable, braces_needed, breaks, enclosed, extractable, extracted_content,
    extracted_wrapping, in_braces, lemma_none_sticks_out, music_in, statement_from, statement_line,
    sticks_out, straddling, top_level, wrapped,
};
use crate::code_action::inline_repeats::blanks;
use crate::code_action::inline_variable::{
    definition_at, deleted, inside_block, line_past, overlapping, past_blanks, shape_of,
};
use crate::code_action::inverse::{lemma_trimmed_range, lemma_white_ends, tight};
use crate::document::Document;
use crate::finding::{first_from, kept, last_below, lemma_first_from, lemma_kept, lemma_last_below};
use crate::laws::extraction::{is_first_in, lemma_first_selected, lemma_sibling, right_before};
use crate::laws::unfolding::is_trimmed;
use crate::line_struct::{
    Span, lemma_offset_boundary, line_start, offset_of, position_of, range_between, within,
};
use crate::notes::{Event, overlaps};
use crate::protocol::{EditView, Position, Range};
use crate::syntax::{
    Node, children_of, earlier, lemma_among_children, lemma_children, lemma_few_children,
    lemma_parent_of_children, nested, smallest_from,
};
use crate::text::{
    all_white, cut_of, leading_white, lemma_piece_bytes, lemma_trim_shortens, trailing_white,
    trimmed_range, trimmed_start,
};

verus! {

pub proof fn lemma_line_start(bytes: Seq<u8>, at: int)
    requires
        0 <= at <= bytes.len(),
    ensures
        starts_line_of(bytes, line_start(bytes, at), at),
    decreases at,
{
    if at > 0 && bytes[at - 1] != 10 {
        lemma_line_start(bytes, at - 1);
    }
}

/// Whether the line that holds `at` starts at `start`.
pub open spec fn starts_line_of(bytes: Seq<u8>, start: int, at: int) -> bool {
    &&& 0 <= start <= at
    &&& start == 0 || bytes[start - 1] == '\n' as u32
    &&& forall|k: int| start <= k < at ==> #[trigger] bytes[k] != '\n' as u32
}

/// Whether a node is a block: its delimiters end the statement that it stands in.
pub open spec fn ends_statement(kind: Seq<char>) -> bool {
    kind == "expression_block"@ || kind == "parallel_music"@
}

/// Whether the statement that holds the node at `b` of a row of top-level nodes starts at `a`: at the
/// left-hand side of an assignment, or behind the block that ends the statement before, with no block
/// and no other assignment in between.
pub open spec fn opens_statement(nodes: Seq<Node>, row: Seq<usize>, a: int, b: int) -> bool {
    &&& 0 <= a <= b < row.len()
    &&& forall|k: int|
        a <= k < b ==> !ends_statement(nodes[(#[trigger] row[k]) as int].kind@)
    &&& forall|k: int|
        a < k < b ==> nodes[(#[trigger] row[k]) as int].kind@ != "assignment_lhs"@
    &&& (a < b && nodes[row[a] as int].kind@ == "assignment_lhs"@) || a == 0 || ends_statement(
        nodes[row[a - 1] as int].kind@,
    )
}

proof fn lemma_statement(nodes: Seq<Node>, parent: int, b: int) -> (a: int)
    requires
        nested(nodes),
        nodes.len() <= usize::MAX,
        0 <= parent < nodes.len(),
        0 <= b < children_of(nodes, parent).len(),
    ensures
        opens_statement(nodes, children_of(nodes, parent), a, b),
        statement_from(nodes, children_of(nodes, parent)[b] as int) == children_of(
            nodes,
            parent,
        )[a],
    decreases b,
{
    let row = children_of(nodes, parent);
    lemma_children(nodes, parent);
    lemma_parent_of_children(nodes, parent);
    lemma_few_children(nodes, parent);
    let i = row[b] as int;
    assert(nodes[i].parent == parent);
    if b > 0 {
        let prev = row[b - 1] as int;
        assert(right_before(nodes, prev, i)) by {
            assert(row[b - 1] == prev);
        }
        lemma_sibling(nodes, prev, i);
        assert(prev < i);
        if ends_statement(nodes[prev].kind@) {
            b
        } else if nodes[prev].kind@ == "assignment_lhs"@ {
            b - 1
        } else {
            let a = lemma_statement(nodes, parent, b - 1);
            a
        }
    } else {
        let fits = earlier(row, i);
        lemma_last_below(row.len() as int, fits);
        match last_below(row.len() as int, fits) {
            Some(m) => {
                assert(fits(m as int));
                if m > 0 {
                    assert(row[0] < row[m as int]);
                }
            },
            None => {},
        }
        0
    }
}

/// Whether node `top` holds node `i` and stands at the top level of the file.
pub open spec fn at_top(nodes: Seq<Node>, top: int, i: int) -> bool {
    &&& 0 < top <= i < nodes[top].past
    &&& nodes[nodes[top].parent as int].kind@ == "lilypond_program"@
}

proof fn lemma_top(nodes: Seq<Node>, i: int)
    requires
        nested(nodes),
        0 <= i < nodes.len(),
        top_level(nodes, i) is Some,
    ensures
        at_top(nodes, top_level(nodes, i)->0 as int, i),
        top_level(nodes, i)->0 < nodes.len(),
    decreases i,
{
    if 0 < i && nodes[i].parent < i {
        assert(i < nodes[i].past);
        let parent = nodes[i].parent as int;
        if nodes[parent].kind@ != "lilypond_program"@ {
            lemma_top(nodes, parent);
            let top = top_level(nodes, i)->0 as int;
            assert(crate::syntax::held(nodes, i));
            assert(i < nodes[parent].past);
            if top < parent {
                assert(nodes[parent].past <= nodes[top].past);
            }
        }
    }
}

/// Whether a place is the start of the line on which the statement that holds node `i` starts: that
/// of the node at `a` of the top level of the file, where the node at `b` holds `i`.
pub open spec fn line_of_statement(
    document: Document,
    place: Position,
    i: int,
    top: int,
    a: int,
    b: int,
    byte: int,
) -> bool {
    let nodes = document.nodes();
    let row = children_of(nodes, nodes[top].parent as int);
    &&& at_top(nodes, top, i)
    &&& opens_statement(nodes, row, a, b)
    &&& row[b] == top
    &&& place == position_of(document.bytes(), byte)
    &&& starts_line_of(
        document.bytes(),
        byte,
        within(document.bytes(), nodes[row[a] as int].start as int),
    )
}

/// Whether a place is the start of the line on which the top-level statement that holds node `i`
/// starts.
pub open spec fn before_statement_of(document: Document, place: Position, i: int) -> bool {
    exists|top: int, a: int, b: int, byte: int| #[trigger]
        line_of_statement(document, place, i, top, a, b, byte)
}

proof fn lemma_place(document: Document, i: int)
    requires
        document.wf(),
        0 <= i < document.nodes().len(),
        statement_line(document, i) is Some,
    ensures
        before_statement_of(
            document,
            position_of(document.bytes(), statement_line(document, i)->0),
            i,
        ),
{
    let nodes = document.nodes();
    let bytes = document.bytes();
    document.tree.lemma_wf();
    assert(nodes.len() == document.tree.nodes.len());
    lemma_top(nodes, i);
    let top = top_level(nodes, i)->0 as int;
    let parent = nodes[top].parent as int;
    let row = children_of(nodes, parent);
    lemma_among_children(nodes, top);
    let b = choose|k: int| 0 <= k < row.len() && #[trigger] row[k] == top;
    let a = lemma_statement(nodes, parent, b);
    let at = within(bytes, nodes[row[a] as int].start as int);
    lemma_line_start(bytes, at);
    let byte = line_start(bytes, at);
    assert(line_of_statement(document, position_of(bytes, byte), i, top, a, b, byte));
}

/// An extraction puts its definition, called `music`, on a line of its own before the whole statement
/// that the selection stands in, and a reference to it in place of the selection. Music that is read
/// relative to a pitch is defined relative to that pitch. The new name is the user's to change.
#[verifier::spinoff_prover]
pub proof fn law_a_definition_goes_before_the_statement(
    document: Document,
    selection: Range,
    first: Option<Event>,
)
    requires
        document.wf(),
        ExtractToVariable::outcome(document, selection) is Some,
        is_first_in(document.events(), extractable(document, selection)->0, first),
        extractable(document, selection)->0.container < document.nodes().len(),
    ensures
        ({
            let found = extractable(document, selection)->0;
            let done = ExtractToVariable::outcome(document, selection)->0;
            let music = wrapped(
                extracted_content(document, found),
                extracted_wrapping(document, found),
            );
            &&& extractable(document, selection) is Some
            &&& done.edits.len() >= 2
            &&& done.edits[0].range.start == done.edits[0].range.end
            &&& before_statement_of(
                document,
                done.edits[0].range.start,
                found.container as int,
            )
            &&& done.edits[0].new_text == match first {
                Some(event) => match event.relative {
                    Some(reference) => "music = \\relative "@ + reference.text@ + " "@ + music
                        + "\n\n"@,
                    None => "music = "@ + music + "\n\n"@,
                },
                None => "music = "@ + music + "\n\n"@,
            }
            &&& done.edits[1] == (EditView {
                range: range_between(
                    document.bytes(),
                    Span { start: found.start, end: found.end },
                ),
                new_text: "\\music"@,
            })
            &&& done.command is Some
        }),
{
    let found = extractable(document, selection)->0;
    lemma_first_selected(document, found, first);
    let done = ExtractToVariable::outcome(document, selection)->0;
    lemma_place(document, found.container as int);
    reveal_strlit("music = \\relative ");
    reveal_strlit("music = ");
    reveal_strlit("\\relative ");
    assert("music = \\relative "@ =~= "music = "@ + "\\relative "@);
    if let Some(event) = first {
        if let Some(reference) = event.relative {
            let music = wrapped(
                extracted_content(document, found),
                extracted_wrapping(document, found),
            );
            assert(done.edits[0].new_text =~= "music = \\relative "@ + reference.text@ + " "@
                + music + "\n\n"@);
        }
    }
}

/// What is extracted is the selection without the white space at its ends, and it cuts through no
/// event.
pub proof fn law_what_is_selected_is_extracted_whole(
    document: Document,
    selection: Range,
    from: int,
    to: int,
    k: int,
)
    requires
        document.wf(),
        document.bytes().len() <= usize::MAX,
        extractable(document, selection) is Some,
        offset_of(document.bytes(), selection.start) == Some(from),
        offset_of(document.bytes(), selection.end) == Some(to),
    ensures
        ({
            let found = extractable(document, selection)->0;
            let src = document.text@;
            let events = document.events();
            &&& from <= found.start < found.end <= to
            &&& is_trimmed(
                cut_of(src, from, to),
                cut_of(src, found.start as int, found.end as int),
            )
            &&& 0 <= k < events.len() ==> events[k].span.end <= found.start || found.end
                <= events[k].span.start || (found.start <= events[k].span.start
                && events[k].span.end <= found.end)
        }),
{
    let found = extractable(document, selection)->0;
    let src = document.text@;
    let events = document.events();
    assert(events.len() == document.notes.events.len());
    lemma_offset_boundary(src, selection.start);
    lemma_offset_boundary(src, selection.end);
    let raw = cut_of(src, from, to);
    lemma_piece_bytes(src, from, to);
    lemma_trim_shortens(raw);
    lemma_white_ends(raw);
    let (start, end) = trimmed_range(src, from, to);
    assert(found.start == start && found.end == end);
    let n = leading_white(raw) as int;
    let m = raw.len() - trailing_white(raw);
    if n < raw.len() {
        let content = raw.subrange(n, m);
        let before = raw.subrange(0, n);
        let behind = raw.subrange(m, raw.len() as int);
        assert(raw =~= before + content + behind);
        assert(tight(content)) by {
            assert(content[0] == raw[n] && content.last() == raw[m - 1]);
        }
        lemma_trimmed_range(src, from, to, before, content, behind);
        assert(all_white(before) && all_white(behind));
    } else {
        assert(trimmed_start(raw) =~= Seq::empty());
        assert(encode_utf8(Seq::<char>::empty()).len() == 0);
        assert(start >= to);
    }
    lemma_none_sticks_out(events, Span { start: found.start, end: found.end });
    if 0 <= k < events.len() {
        let apart = !overlaps(events[k], found.start as int, found.end as int);
        assert(apart || found.start <= events[k].span.start);
    }
}

proof fn lemma_line_past(bytes: Seq<u8>, at: int, end: int)
    requires
        0 <= at <= end <= bytes.len(),
        forall|k: int| at <= k < end ==> #[trigger] bytes[k] != '\n' as u32,
        end < bytes.len() ==> bytes[end] == '\n' as u32,
    ensures
        line_past(bytes, at) == if end < bytes.len() {
            end + 1
        } else {
            end
        },
    decreases end - at,
{
    if at < end {
        assert(bytes[at] != '\n' as u32);
        lemma_line_past(bytes, at + 1, end);
    }
}

/// Whether a byte is a space or a tab.
pub open spec fn is_blank(byte: u8) -> bool {
    byte == ' ' as u32 || byte == '\t' as u32
}

proof fn lemma_past_blanks(bytes: Seq<u8>, at: int, end: int)
    requires
        0 <= at <= end <= bytes.len(),
        forall|k: int| at <= k < end ==> is_blank(#[trigger] bytes[k]),
        end < bytes.len() ==> !is_blank(bytes[end]),
    ensures
        past_blanks(bytes, at) == end,
    decreases end - at,
{
    if at < end {
        assert(is_blank(bytes[at]));
        lemma_past_blanks(bytes, at + 1, end);
    }
}

/// Deleting a definition takes whole lines: from the start of the line on which its name stands
/// through the line on which its value ends, at `line`, and with it the next line where nothing but
/// blanks stand on that, up to `next`; what follows stays.
pub proof fn law_a_definition_is_deleted_with_its_lines(
    src: Seq<char>,
    lhs_start: usize,
    rhs_end: usize,
    line: int,
    next: int,
)
    requires
        encode_utf8(src).len() <= usize::MAX,
        lhs_start <= rhs_end <= line <= encode_utf8(src).len(),
        forall|k: int| rhs_end <= k < line ==> #[trigger] encode_utf8(src)[k] != '\n' as u32,
        line < encode_utf8(src).len() ==> encode_utf8(src)[line] == '\n' as u32,
        line < encode_utf8(src).len() ==> line < next <= encode_utf8(src).len(),
        line == encode_utf8(src).len() ==> next == line,
        forall|k: int| line < k < next ==> is_blank(#[trigger] encode_utf8(src)[k]),
        next < encode_utf8(src).len() ==> !is_blank(encode_utf8(src)[next]),
    ensures
        ({
            let bytes = encode_utf8(src);
            let gone = deleted(src, lhs_start as int, rhs_end as int);
            &&& starts_line_of(bytes, gone.start as int, lhs_start as int)
            &&& next == bytes.len() ==> gone.end == bytes.len()
            &&& next < bytes.len() && bytes[next] == '\n' as u32 ==> gone.end == next + 1
            &&& next < bytes.len() && bytes[next] != '\n' as u32 ==> gone.end == line + 1
        }),
{
    let bytes = encode_utf8(src);
    lemma_line_start(bytes, lhs_start as int);
    lemma_line_past(bytes, rhs_end as int, line);
    if line < bytes.len() {
        lemma_past_blanks(bytes, line + 1, next);
    }
}

/// The shape of a value: a block by itself, `\relative` with a block at its end, or something else.
/// The music of a block is what its first and last node enclose, without the white space at the ends.
pub proof fn law_the_shape_of_a_value(nodes: Seq<Node>, src: Seq<char>, rhs: Seq<usize>)
    requires
        rhs.len() > 0,
    ensures
        ({
            let first = nodes[rhs[0] as int];
            let last = nodes[rhs.last() as int];
            let word = cut_of(src, first.start as int, first.end as int);
            let shape = shape_of(nodes, src, rhs);
            &&& shape is Block <==> rhs.len() == 1 && first.kind@ == "expression_block"@
            &&& shape is RelativeBlock <==> first.kind@ == "escaped_word"@ && word
                == "\\relative"@ && last.kind@ == "expression_block"@
            &&& shape is Block ==> shape->Block_inner == inside_block(nodes, src, rhs[0] as int)
            &&& shape is RelativeBlock ==> shape->RelativeBlock_inner == inside_block(
                nodes,
                src,
                rhs.last() as int,
            )
        }),
{
    reveal_strlit("expression_block");
    reveal_strlit("escaped_word");
    assert("expression_block"@.len() == 16);
    assert("escaped_word"@.len() == 12);
}

/// Whether each named node of a row lies inside `[start, end)` or outside of it.
pub open spec fn slices_none(nodes: Seq<Node>, row: Seq<usize>, start: int, end: int) -> bool {
    forall|k: int|
        0 <= k < row.len() && nodes[(#[trigger] row[k]) as int].named ==> nodes[row[k] as int].end
            <= start || end <= nodes[row[k] as int].start || (start <= nodes[row[k] as int].start
            && nodes[row[k] as int].end <= end)
}

/// Whether the first named node of a row that lies inside `[start, end)` is a command word.
pub open spec fn leads_with_word(nodes: Seq<Node>, row: Seq<usize>, start: int, end: int) -> bool {
    exists|k: int|
        {
            &&& 0 <= k < row.len()
            &&& nodes[(#[trigger] row[k]) as int].kind@ == "escaped_word"@
            &&& inside(nodes[row[k] as int], start, end)
            &&& forall|j: int| 0 <= j < k ==> !inside(nodes[(#[trigger] row[j]) as int], start, end)
        }
}

/// Whether a node is named and lies inside `[start, end)`.
pub open spec fn inside(node: Node, start: int, end: int) -> bool {
    node.named && start <= node.start && node.end <= end
}

/// A part of a block can be taken out where it lies between the delimiters and slices through nothing
/// in between. It goes into braces, unless it starts with a command, which brings its own.
pub proof fn law_a_part_of_a_block_can_be_taken_out(
    nodes: Seq<Node>,
    container: int,
    start: int,
    end: int,
)
    requires
        nested(nodes),
        nodes.len() <= usize::MAX,
        0 <= container < nodes.len(),
        start < end,
        nodes[container].start != start || nodes[container].end != end,
    ensures
        ({
            let row = children_of(nodes, container);
            let needed = braces_needed(nodes, container, start, end);
            &&& needed is Some <==> {
                &&& nodes[container].kind@ == "expression_block"@
                &&& row.len() >= 2
                &&& nodes[row[0] as int].end <= start
                &&& end <= nodes[row.last() as int].start
                &&& slices_none(nodes, row, start, end)
            }
            &&& needed is Some ==> (needed == Some(false) <==> leads_with_word(
                nodes,
                row,
                start,
                end,
            ))
        }),
{
    let row = children_of(nodes, container);
    let n = row.len() as int;
    lemma_few_children(nodes, container);
    let across = straddling(nodes, row, start, end);
    let within = enclosed(nodes, row, start, end);
    lemma_first_from(0, n, across);
    lemma_first_from(0, n, within);
    match first_from(0, n, across) {
        Some(k) => {
            assert(across(k as int));
            assert(!slices_none(nodes, row, start, end)) by {
                assert(nodes[row[k as int] as int].named);
            }
        },
        None => {
            assert forall|k: int|
                0 <= k < row.len() && nodes[(#[trigger] row[k]) as int].named implies nodes[
                row[k] as int].end <= start || end <= nodes[row[k] as int].start || (start
                <= nodes[row[k] as int].start && nodes[row[k] as int].end <= end) by {
                assert(!across(k));
            }
        },
    }
    match first_from(0, n, within) {
        Some(k) => {
            assert(within(k as int));
            assert(inside(nodes[row[k as int] as int], start, end));
            assert forall|j: int| 0 <= j < k implies !inside(
                nodes[(#[trigger] row[j]) as int],
                start,
                end,
            ) by {
                assert(!within(j));
            }
            if leads_with_word(nodes, row, start, end) {
                let l = choose|l: int|
                    {
                        &&& 0 <= l < row.len()
                        &&& nodes[(#[trigger] row[l]) as int].kind@ == "escaped_word"@
                        &&& inside(nodes[row[l] as int], start, end)
                        &&& forall|j: int|
                            0 <= j < l ==> !inside(nodes[(#[trigger] row[j]) as int], start, end)
                    };
                assert(l <= k);
                assert(l >= k);
            }
        },
        None => {
            if leads_with_word(nodes, row, start, end) {
                let l = choose|l: int|
                    {
                        &&& 0 <= l < row.len()
                        &&& nodes[(#[trigger] row[l]) as int].kind@ == "escaped_word"@
                        &&& inside(nodes[row[l] as int], start, end)
                        &&& forall|j: int|
                            0 <= j < l ==> !inside(nodes[(#[trigger] row[j]) as int], start, end)
                    };
                assert(!within(l));
            }
        },
    }
}

/// A single node can be taken out where it is a block, which has its braces already, or music that
/// stands in a block; a comment and a punctuation mark are none.
pub proof fn law_one_node_can_be_taken_out(nodes: Seq<Node>, container: int)
    requires
        nested(nodes),
        0 <= container < nodes.len(),
    ensures
        ({
            let node = nodes[container];
            let needed = braces_needed(nodes, container, node.start as int, node.end as int);
            let in_block = container > 0 && nodes[node.parent as int].kind@
                == "expression_block"@;
            &&& node.kind@ == "expression_block"@ ==> needed == Some(false)
            &&& node.kind@ != "expression_block"@ ==> (needed is Some <==> node.named && in_block
                && node.kind@ != "punctuation"@ && node.kind@ != "comment"@)
            &&& node.kind@ == "escaped_word"@ && node.named && in_block ==> needed == Some(false)
            &&& needed == Some(true) ==> node.kind@ != "escaped_word"@ && node.kind@
                != "expression_block"@
            &&& needed == Some(false) ==> node.kind@ == "escaped_word"@ || node.kind@
                == "expression_block"@
        }),
{
    reveal_strlit("expression_block");
    reveal_strlit("escaped_word");
    reveal_strlit("punctuation");
    reveal_strlit("comment");
    assert("expression_block"@.len() == 16);
    assert("escaped_word"@.len() == 12);
    assert("punctuation"@.len() == 11);
    assert("comment"@.len() == 7);
}

proof fn lemma_blank_count(text: Seq<char>, pad: Seq<char>, rest: Seq<char>, from: int)
    requires
        text == pad + rest,
        0 <= from <= pad.len(),
        forall|k: int| 0 <= k < pad.len() ==> #[trigger] pad[k] == ' ' || pad[k] == '\t',
        rest.len() > 0 ==> rest[0] != ' ' && rest[0] != '\t',
    ensures
        blanks(text, from) == pad.len() - from,
    decreases pad.len() - from,
{
    if from < pad.len() {
        assert(text[from] == pad[from]);
        lemma_blank_count(text, pad, rest, from + 1);
    } else if rest.len() > 0 {
        assert(text[from] == rest[0]);
    }
}

/// Music on one line goes between the braces with a space on each side. Music on several lines goes on
/// lines of its own, its first line indented as the second one is.
pub proof fn law_braces_are_laid_out_as_the_music_is(
    first: Seq<char>,
    pad: Seq<char>,
    rest: Seq<char>,
)
    requires
        !first.contains('\n'),
        first.len() + pad.len() + rest.len() < usize::MAX,
        forall|k: int| 0 <= k < pad.len() ==> #[trigger] pad[k] == ' ' || pad[k] == '\t',
        rest.len() > 0 ==> rest[0] != ' ' && rest[0] != '\t',
    ensures
        in_braces(first) == seq!['{', ' '] + first + seq![' ', '}'],
        in_braces(first + seq!['\n'] + pad + rest) == seq!['{', '\n'] + pad + first + seq!['\n'] + pad
            + rest + seq!['\n', '}'],
{
    reveal_strlit("{ ");
    reveal_strlit(" }");
    reveal_strlit("{\n");
    reveal_strlit("\n}");
    reveal_strlit("\n");
    assert("{ "@ =~= seq!['{', ' ']);
    assert(" }"@ =~= seq![' ', '}']);
    assert("{\n"@ =~= seq!['{', '\n']);
    assert("\n}"@ =~= seq!['\n', '}']);
    assert("\n"@ =~= seq!['\n']);
    lemma_first_from(0, first.len() as int, breaks(first));
    match first_from(0, first.len() as int, breaks(first)) {
        Some(k) => {
            assert(breaks(first)(k as int));
            assert(first.contains(first[k as int]));
        },
        None => {},
    }
    let text = first + seq!['\n'] + pad + rest;
    let at = first.len() as int;
    let fits = breaks(text);
    lemma_first_from(0, text.len() as int, fits);
    assert(text[at] == '\n');
    assert(fits(at));
    match first_from(0, text.len() as int, fits) {
        Some(k) => {
            assert(fits(k as int));
            if k < at {
                assert(text[k as int] == first[k as int]);
                assert(first.contains(first[k as int]));
            } else if k > at {
                assert(!fits(at));
            }
        },
        None => {
            assert(!fits(at));
        },
    }
    assert(text.subrange(0, at) =~= first);
    let tail = text.subrange(at + 1, text.len() as int);
    assert(tail =~= pad + rest);
    lemma_blank_count(tail, pad, rest, 0);
    assert(tail.subrange(0, pad.len() as int) =~= pad);
    assert(in_braces(text) =~= seq!['{', '\n'] + pad + first + seq!['\n'] + pad + rest + seq![
        '\n',
        '}',
    ]);
}

/// Whether the nodes of a row from `j` up to `m` are neither blocks nor the start of an assignment.
pub open spec fn plain_between(nodes: Seq<Node>, row: Seq<usize>, j: int, m: int) -> bool {
    &&& 0 <= j <= m <= row.len()
    &&& forall|k: int|
        j <= k < m ==> !ends_statement(nodes[(#[trigger] row[k]) as int].kind@) && nodes[
        row[k] as int].kind@ != "assignment_lhs"@
}

/// The value of an assignment starts behind its equals sign and ends with its first block, or before
/// the next assignment, or with the file.
pub proof fn law_a_value_ends_with_its_first_block(
    nodes: Seq<Node>,
    row: Seq<usize>,
    i: int,
    j: int,
    m: int,
)
    requires
        plain_between(nodes, row, j, m),
        m < row.len() ==> ends_statement(nodes[row[m] as int].kind@) || nodes[row[m] as int].kind@
            == "assignment_lhs"@,
        0 <= i,
    ensures
        m < row.len() && ends_statement(nodes[row[m] as int].kind@) ==> rhs_past(nodes, row, j)
            == m + 1,
        m < row.len() && nodes[row[m] as int].kind@ == "assignment_lhs"@ ==> rhs_past(nodes, row, j)
            == m,
        m == row.len() ==> rhs_past(nodes, row, j) == m,
        i + 1 < row.len() && nodes[row[i + 1] as int].kind@ == "punctuation"@ ==> rhs_first(
            nodes,
            row,
            i,
        ) == i + 2,
        i + 1 < row.len() && nodes[row[i + 1] as int].kind@ != "punctuation"@ ==> rhs_first(
            nodes,
            row,
            i,
        ) == i + 1,
    decreases m - j,
{
    reveal_strlit("assignment_lhs");
    reveal_strlit("expression_block");
    reveal_strlit("parallel_music");
    assert("assignment_lhs"@.len() == 14 && "assignment_lhs"@[0] == 'a');
    assert("expression_block"@.len() == 16);
    assert("parallel_music"@.len() == 14 && "parallel_music"@[0] == 'p');
    if j < m {
        assert(!ends_statement(nodes[row[j] as int].kind@));
        law_a_value_ends_with_its_first_block(nodes, row, i, j + 1, m);
    }
}

/// The definition that an assignment makes: its name, its value without the white space at its ends,
/// and the place on its left-hand side where it can be asked for, up to the value.
pub proof fn law_a_definition_is_an_assignment(
    nodes: Seq<Node>,
    src: Seq<char>,
    row: Seq<usize>,
    i: int,
    first: int,
    past: int,
)
    requires
        first == rhs_first(nodes, row, i),
        past == rhs_past(nodes, row, first),
        first < past,
    ensures
        ({
            let found = definition_at(nodes, src, row, i);
            let lhs = nodes[row[i] as int];
            let start = nodes[row[first] as int].start as int;
            let end = nodes[row[past - 1] as int].end as int;
            let (from, to) = trimmed_range(src, start, end);
            &&& found is Some
            &&& found->0.name == cut_of(src, lhs.start as int, lhs.end as int)
            &&& found->0.rhs == (Span { start: from as usize, end: to as usize })
            &&& found->0.lhs_region == (Span { start: lhs.start, end: from as usize })
            &&& found->0.delete == deleted(src, lhs.start as int, found->0.rhs.end as int)
        }),
{
}

/// Whether the smallest node around `[from, to)` has no error in it and can hand that part over.
pub open spec fn can_hand_over(nodes: Seq<Node>, from: int, to: int) -> bool {
    let container = smallest_from(nodes, 0, from, to);
    !nodes[container].has_error && braces_needed(nodes, container, from, to) is Some
}

/// Whether something else than comments stands in `[start, end)` among the parts of a node.
pub open spec fn holds_music(nodes: Seq<Node>, container: int, start: int, end: int) -> bool {
    let row = children_of(nodes, container);
    exists|k: int|
        {
            &&& 0 <= k < row.len()
            &&& nodes[(#[trigger] row[k]) as int].named
            &&& nodes[row[k] as int].kind@ != "comment"@
            &&& nodes[row[k] as int].start < end
            &&& nodes[row[k] as int].end > start
        }
}

/// A selection can be extracted, with the white space at its ends or else without it, where the
/// smallest node around it can hand it over; and nothing can be extracted from an error or where a
/// block has only comments selected.
pub proof fn law_what_can_be_extracted(
    document: Document,
    selection: Range,
    from: int,
    to: int,
)
    requires
        document.wf(),
        document.bytes().len() <= usize::MAX,
        offset_of(document.bytes(), selection.start) == Some(from),
        offset_of(document.bytes(), selection.end) == Some(to),
    ensures
        ({
            let nodes = document.nodes();
            let (start, end) = trimmed_range(document.text@, from, to);
            let found = extractable(document, selection);
            let loose = can_hand_over(nodes, from, to);
            let close = can_hand_over(nodes, start, end);
            let container = if loose {
                smallest_from(nodes, 0, from, to)
            } else {
                smallest_from(nodes, 0, start, end)
            };
            let whole = forall|k: int|
                0 <= k < document.events().len() ==> (#[trigger] document.events()[k]).span.end
                    <= start || end <= document.events()[k].span.start || (start
                    <= document.events()[k].span.start && document.events()[k].span.end <= end);
            found is Some <==> from < to && start < end && (loose || close) && whole && (nodes[
            container].kind@ == "expression_block"@ ==> holds_music(nodes, container, start, end))
        }),
{
    let nodes = document.nodes();
    let events = document.events();
    let src = document.text@;
    let (start, end) = trimmed_range(src, from, to);
    document.tree.lemma_wf();
    assert(nodes.len() == document.tree.nodes.len());
    assert(events.len() == document.notes.events.len());
    lemma_offset_boundary(src, selection.start);
    lemma_offset_boundary(src, selection.end);
    if from < to {
        lemma_piece_bytes(src, from, to);
        lemma_trim_shortens(cut_of(src, from, to));
        let loose = can_hand_over(nodes, from, to);
        let container = if loose {
            smallest_from(nodes, 0, from, to)
        } else {
            smallest_from(nodes, 0, start, end)
        };
        if start < end {
            let span = Span { start: start as usize, end: end as usize };
            lemma_sticks(events, span);
            crate::syntax::lemma_smallest_from(nodes, 0, from, to);
            crate::syntax::lemma_smallest_from(nodes, 0, start, end);
            let row = children_of(nodes, container);
            let n = row.len() as int;
            lemma_few_children(nodes, container);
            let fits = music_in(nodes, row, start, end);
            lemma_first_from(0, n, fits);
            match first_from(0, n, fits) {
                Some(k) => {
                    assert(fits(k as int));
                    assert(nodes[row[k as int] as int].named);
                },
                None => {
                    if holds_music(nodes, container, start, end) {
                        let k = choose|k: int|
                            {
                                &&& 0 <= k < row.len()
                                &&& nodes[(#[trigger] row[k]) as int].named
                                &&& nodes[row[k] as int].kind@ != "comment"@
                                &&& nodes[row[k] as int].start < end
                                &&& nodes[row[k] as int].end > start
                            };
                        assert(!fits(k));
                    }
                },
            }
        }
    }
}

proof fn lemma_sticks(events: Seq<Event>, span: Span)
    requires
        crate::notes::in_order(events),
        events.len() <= usize::MAX,
        span.start < span.end,
    ensures
        sticks_out(
            events,
            kept(events.len() as int, overlapping(events, span)),
            span.start as int,
            span.end as int,
        ) <==> !(forall|k: int|
            0 <= k < events.len() ==> (#[trigger] events[k]).span.end <= span.start || span.end
                <= events[k].span.start || (span.start <= events[k].span.start
                && events[k].span.end <= span.end)),
{
    let fits = overlapping(events, span);
    let at = kept(events.len() as int, fits);
    lemma_kept(events.len() as int, fits);
    if !sticks_out(events, at, span.start as int, span.end as int) {
        lemma_none_sticks_out(events, span);
        assert forall|k: int| 0 <= k < events.len() implies (#[trigger] events[k]).span.end
            <= span.start || span.end <= events[k].span.start || (span.start
            <= events[k].span.start && events[k].span.end <= span.end) by {
            let apart = !overlaps(events[k], span.start as int, span.end as int);
            assert(apart || span.start <= events[k].span.start);
        }
    } else {
        let first = at[0] as int;
        let last = at[at.len() - 1] as int;
        assert(fits(first) && fits(last));
        assert(at.last() == at[at.len() - 1]);
        if events[first].span.start < span.start {
            assert(!(events[first].span.end <= span.start));
        } else {
            assert(events[last].span.end > span.end);
        }
    }
}

} // verus!
