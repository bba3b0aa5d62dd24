//! Extracting music to a variable: what the definition says, and where it goes.
use vstd::prelude::*;
use vstd::utf8::*;
use crate::code_action::CodeAction;
use crate::code_action::extract_to_variable::{
    Extractable, block_above, effect_before, extractable, extracted, extracted_content,
    extracted_wrapping, in_braces, mode_around, mode_of, selected_events, wrapped,
};
use crate::code_action::inline_variable::overlapping;
use crate::code_action::inverse::{
    durations_tight, law_braces_hold_what_was_put_in_them, lemma_extracted_tight, tight,
};
use crate::document::Document;
use crate::finding::{last_below, lemma_kept, lemma_last_below};
use crate::laws::explicit::{lemma_split_piece, stands};
use crate::line_struct::Span;
use crate::notes::Event;
use crate::protocol::Range;
use crate::syntax::{
    Node, children_of, earlier, lemma_children, lemma_few_children, nested, sibling_before,
};
use crate::text::{
    can_cut, cut_of, lemma_cut_middle, lemma_encode_concat, on_boundary, piece, replaced, trimmed,
};

verus! {

/// What is taken out of a document: the selected text, with the duration of its first event written
/// behind that event's value where it was not.
pub open spec fn taken_out(document: Document, found: Extractable, first: Option<Event>) -> Seq<char> {
    let src = document.text@;
    match first {
        Some(event) => if event.duration_written {
            cut_of(src, found.start as int, found.end as int)
        } else {
            cut_of(src, found.start as int, event.value_end as int) + event.duration@ + cut_of(
                src,
                event.value_end as int,
                found.end as int,
            )
        },
        None => cut_of(src, found.start as int, found.end as int),
    }
}

/// Whether an event is the first one that shares a byte with what is taken out; none is where none
/// does.
pub open spec fn is_first_in(events: Seq<Event>, found: Extractable, first: Option<Event>) -> bool {
    match first {
        Some(event) => exists|k: int|
            0 <= k < events.len() && #[trigger] events[k] == event && event.span.start < found.end
                && event.span.end > found.start && forall|j: int|
                0 <= j < k ==> !((#[trigger] events[j]).span.start < found.end && events[j].span.end
                    > found.start),
        None => forall|j: int|
            0 <= j < events.len() ==> !((#[trigger] events[j]).span.start < found.end
                && events[j].span.end > found.start),
    }
}

pub proof fn lemma_first_selected(document: Document, found: Extractable, first: Option<Event>)
    requires
        is_first_in(document.events(), found, first),
    ensures
        ({
            let at = selected_events(document, found);
            match first {
                Some(event) => at.len() > 0 && document.events()[at[0] as int] == event,
                None => at.len() == 0,
            }
        }),
{
    let events = document.events();
    assert(events.len() == document.notes.events.len());
    let fits = overlapping(events, Span { start: found.start, end: found.end });
    let at = selected_events(document, found);
    lemma_kept(events.len() as int, fits);
    match first {
        Some(event) => {
            let k = choose|k: int|
                0 <= k < events.len() && #[trigger] events[k] == event && event.span.start
                    < found.end && event.span.end > found.start && forall|j: int|
                    0 <= j < k ==> !((#[trigger] events[j]).span.start < found.end
                        && events[j].span.end > found.start);
            assert(fits(k));
            assert(at.contains(k as usize));
            assert(fits(at[0] as int));
            if at[0] < k {
                assert(!(events[at[0] as int].span.start < found.end));
            }
        },
        None => {
            if at.len() > 0 {
                assert(fits(at[0] as int));
            }
        },
    }
}

/// What is extracted is what was selected, with the duration of its first event written right behind
/// that event's value where it was not.
pub proof fn law_what_is_extracted_was_selected(
    document: Document,
    found: Extractable,
    first: Option<Event>,
)
    requires
        is_first_in(document.events(), found, first),
        can_cut(document.text@, found.start as int, found.end as int),
        first matches Some(event) ==> found.start <= event.value_end <= found.end && on_boundary(
            document.text@,
            event.value_end as int,
        ),
    ensures
        extracted_content(document, found) == taken_out(document, found, first),
{
    lemma_first_selected(document, found, first);
    let src = document.text@;
    match first {
        Some(event) => {
            let from = found.start as int;
            let mid = event.value_end as int;
            let to = found.end as int;
            lemma_split_piece(src, from, mid, to);
            let head = piece(src, from, mid);
            let tail = piece(src, mid, to);
            let none = Seq::<char>::empty();
            let raw = head + tail;
            assert(raw =~= none + head + tail);
            lemma_cut_middle(none, head, tail);
            assert(raw =~= head + tail + none);
            lemma_cut_middle(head, tail, none);
            lemma_encode_concat(head, tail);
            assert(encode_utf8(none).len() == 0);
            assert(head + none + tail =~= raw);
            lemma_cut_middle(head, none, tail);
            assert(replaced(raw, mid - from, mid - from, event.duration@) =~= head + event.duration@
                + tail);
        },
        None => {},
    }
}

/// Whether node `c` stands right before node `i`, side by side with it.
pub open spec fn right_before(nodes: Seq<Node>, c: int, i: int) -> bool {
    let row = children_of(nodes, nodes[i].parent as int);
    exists|k: int| 0 < k < row.len() && row[k] == i && #[trigger] row[k - 1] == c
}

/// Whether a command word that says `word` stands right before a block.
pub open spec fn word_before(document: Document, block: int, word: Seq<char>) -> bool {
    exists|c: int|
        0 <= c < document.nodes().len() && #[trigger] right_before(document.nodes(), c, block)
            && document.nodes()[c].kind@ == "escaped_word"@ && cut_of(
            document.text@,
            document.nodes()[c].start as int,
            document.nodes()[c].end as int,
        ) == word
}

/// Whether `block` is the innermost block that bare music in a node stands in.
pub open spec fn stands_in(nodes: Seq<Node>, node: int, block: int) -> bool {
    &&& 0 < block < nodes.len()
    &&& 0 < node < nodes.len()
    &&& nodes[block].kind@ == "expression_block"@
    &&& node == block || (nodes[node].kind@ != "expression_block"@ && nodes[node].parent == block)
}

/// Whether `text` is music in braces: the braces around it with white space inside them, and nothing
/// else.
pub open spec fn braces_around(text: Seq<char>, music: Seq<char>) -> bool {
    &&& text.len() >= 2
    &&& text[0] == '{'
    &&& text.last() == '}'
    &&& trimmed(text.subrange(1, text.len() - 1)) == music
}

proof fn lemma_braces_around(content: Seq<char>)
    requires
        tight(content),
        content.len() <= usize::MAX,
    ensures
        braces_around(in_braces(content), content),
{
    law_braces_hold_what_was_put_in_them(content);
    reveal_strlit("{\n");
    reveal_strlit("\n}");
    reveal_strlit("{ ");
    reveal_strlit(" }");
}

pub proof fn lemma_sibling(nodes: Seq<Node>, c: int, i: int)
    requires
        nested(nodes),
        0 < i < nodes.len() <= usize::MAX,
        0 <= c < nodes.len(),
        right_before(nodes, c, i),
    ensures
        sibling_before(nodes, i) == Some(c as usize),
{
    let parent = nodes[i].parent as int;
    let row = children_of(nodes, parent);
    lemma_children(nodes, parent);
    lemma_few_children(nodes, parent);
    let k = choose|k: int| 0 < k < row.len() && row[k] == i && #[trigger] row[k - 1] == c;
    let fits = earlier(row, i);
    lemma_last_below(row.len() as int, fits);
    assert(fits(k - 1));
    match last_below(row.len() as int, fits) {
        Some(m) => {
            assert(fits(m as int));
            if m > k - 1 {
                assert(row[k] <= row[m as int]) by {
                    if m > k {
                        assert(row[k] < row[m as int]);
                    }
                }
            } else if m < k - 1 {
                assert(!fits(k - 1));
            }
        },
        None => {},
    }
}

/// The words of the modes differ from one another.
proof fn lemma_mode_words()
    ensures
        "\\lyricmode"@.len() == 10 && "\\lyricmode"@[1] == 'l',
        "\\lyrics"@.len() == 7 && "\\lyrics"@[1] == 'l',
        "\\chordmode"@.len() == 10 && "\\chordmode"@[1] == 'c',
        "\\chords"@.len() == 7 && "\\chords"@[1] == 'c',
        "\\figuremode"@.len() == 11 && "\\figuremode"@[1] == 'f',
        "\\figures"@.len() == 8 && "\\figures"@[1] == 'f',
        "\\drummode"@.len() == 9 && "\\drummode"@[1] == 'd',
        "\\drums"@.len() == 6 && "\\drums"@[1] == 'd',
        "\\markup"@.len() == 7 && "\\markup"@[1] == 'm',
        "\\notemode"@.len() == 9 && "\\notemode"@[1] == 'n',
        "\\notes"@.len() == 6 && "\\notes"@[1] == 'n',
{
    reveal_strlit("\\lyricmode");
    reveal_strlit("\\lyrics");
    reveal_strlit("\\chordmode");
    reveal_strlit("\\chords");
    reveal_strlit("\\figuremode");
    reveal_strlit("\\figures");
    reveal_strlit("\\drummode");
    reveal_strlit("\\drums");
    reveal_strlit("\\markup");
    reveal_strlit("\\notemode");
    reveal_strlit("\\notes");
}

/// Whether what an extraction writes down is music of an entry mode: the command that enters it, and
/// the music in braces.
pub open spec fn in_mode(text: Seq<char>, command: Seq<char>, music: Seq<char>) -> bool {
    exists|block: Seq<char>|
        text == command + " "@ + block && #[trigger] braces_around(block, music)
}

/// Extraction keeps the entry mode: bare music that stands in a block behind one of the mode commands,
/// in its long or its short form, is defined as music of that mode. Behind `\notemode` or `\notes` it
/// is defined as plain music.
pub proof fn law_extraction_keeps_the_mode(
    document: Document,
    selection: Range,
    block: int,
    word: Seq<char>,
)
    requires
        document.wf(),
        document.bytes().len() <= usize::MAX,
        durations_tight(document.events()),
        extractable(document, selection) is Some,
        extractable(document, selection)->0.braces,
        extracted_content(document, extractable(document, selection)->0).len() <= usize::MAX,
        stands_in(
            document.nodes(),
            extractable(document, selection)->0.container as int,
            block,
        ),
        word_before(document, block, word),
    ensures
        ({
            let found = extractable(document, selection)->0;
            let music = extracted_content(document, found);
            let text = wrapped(music, extracted_wrapping(document, found));
            &&& word == "\\lyricmode"@ || word == "\\lyrics"@ ==> in_mode(
                text,
                "\\lyricmode"@,
                music,
            )
            &&& word == "\\chordmode"@ || word == "\\chords"@ ==> in_mode(
                text,
                "\\chordmode"@,
                music,
            )
            &&& word == "\\figuremode"@ || word == "\\figures"@ ==> in_mode(
                text,
                "\\figuremode"@,
                music,
            )
            &&& word == "\\drummode"@ || word == "\\drums"@ ==> in_mode(text, "\\drummode"@, music)
            &&& word == "\\markup"@ ==> in_mode(text, "\\markup"@, music)
            &&& word == "\\notemode"@ || word == "\\notes"@ ==> braces_around(text, music)
        }),
{
    let nodes = document.nodes();
    let found = extractable(document, selection)->0;
    let music = extracted_content(document, found);
    document.tree.lemma_wf();
    assert(nodes.len() == document.tree.nodes.len());
    lemma_extracted_tight(document, selection);
    lemma_braces_around(music);
    lemma_mode_words();
    let c = choose|c: int|
        0 <= c < nodes.len() && #[trigger] right_before(nodes, c, block) && nodes[c].kind@
            == "escaped_word"@ && cut_of(
            document.text@,
            nodes[c].start as int,
            nodes[c].end as int,
        ) == word;
    lemma_sibling(nodes, c, block);
    lemma_stands_in(nodes, found.container as int, block);
    assert(effect_before(nodes, document.text@, block) == mode_of(word));
}

proof fn lemma_stands_in(nodes: Seq<Node>, node: int, block: int)
    requires
        nested(nodes),
        stands_in(nodes, node, block),
    ensures
        node != block ==> block_above(nodes, node) == Some(block as usize),
{
}

/// A block that no command word stands before is read as the block around it; and at the top, where
/// there is none around it, as plain music.
pub proof fn law_a_mode_reaches_into_the_blocks_inside(document: Document, block: int)
    requires
        document.wf(),
        0 < block < document.nodes().len(),
        forall|c: int|
            0 <= c < document.nodes().len() && document.nodes()[c].kind@ == "escaped_word"@
                ==> !#[trigger] right_before(document.nodes(), c, block),
    ensures
        ({
            let nodes = document.nodes();
            let parent = nodes[block].parent as int;
            &&& nodes[parent].kind@ == "expression_block"@ ==> mode_around(
                nodes,
                document.text@,
                block,
            ) == mode_around(nodes, document.text@, parent)
            &&& parent == 0 && nodes[parent].kind@ != "expression_block"@ ==> mode_around(
                nodes,
                document.text@,
                block,
            ) is None
        }),
{
    let nodes = document.nodes();
    document.tree.lemma_wf();
    assert(nodes.len() == document.tree.nodes.len());
    match sibling_before(nodes, block) {
        Some(c) => {
            lemma_sibling_back(nodes, block);
            assert(right_before(nodes, c as int, block));
        },
        None => {},
    }
    reveal_with_fuel(block_above, 2);
}

pub proof fn lemma_sibling_back(nodes: Seq<Node>, i: int)
    requires
        nested(nodes),
        0 < i < nodes.len() <= usize::MAX,
        sibling_before(nodes, i) is Some,
    ensures
        0 <= sibling_before(nodes, i)->0 < nodes.len(),
        right_before(nodes, sibling_before(nodes, i)->0 as int, i),
{
    let parent = nodes[i].parent as int;
    let row = children_of(nodes, parent);
    lemma_children(nodes, parent);
    lemma_few_children(nodes, parent);
    crate::syntax::lemma_among_children(nodes, i);
    let fits = earlier(row, i);
    lemma_last_below(row.len() as int, fits);
    let m = last_below(row.len() as int, fits)->0 as int;
    assert(fits(m));
    let k = choose|k: int| 0 <= k < row.len() && row[k] == i;
    if m + 1 < k {
        assert(row[m + 1] < row[k]);
        assert(fits(m + 1));
    }
    if m >= k {
        assert(row[k] <= row[m]) by {
            if m > k {
                assert(row[k] < row[m]);
            }
        }
    }
    assert(row[k - 1] == row[m]);
}

} // verus!
