//! Inlining a variable: that every reference goes, and that the two actions agree.
use vstd::prelude::*;
use crate::assignment::{lemma_rhs_past, rhs_first, rhs_past};
use crate::code_action::CodeAction;
use crate::code_action::inline_variable::{
    DefinitionView, InlineAll, InlineHere, Surroundings, after_reference, around_relative,
    before_reference, defines, definition_of, definition_selected, definitions_from, definitions_of,
    first_note_splices, inlined, inlined_at, lhs_on, outer_pitch, overlapping, reference_selected,
    references_to, refers, surroundings_of, symbol_on,
};
use crate::code_action::note_state::pitch_carried;
use crate::code_action::splice::latest_first;
use crate::document::Document;
use crate::finding::{first_from, kept, lemma_first_from, lemma_kept, lemma_last_below};
use crate::line_struct::{Span, offset_of, range_between};
use crate::notes::Event;
use crate::protocol::{EditView, Range};
use crate::syntax::{Node, children_of, lemma_few_children, smallest_from};
use crate::text::cut_of;

verus! {

/// Whether `edits` hold, one behind the other, all of `some`.
pub open spec fn holds_run(edits: Seq<EditView>, some: Seq<EditView>) -> bool {
    exists|k: int|
        0 <= k && k + some.len() <= edits.len() && some == #[trigger] edits.subrange(
            k,
            k + some.len(),
        )
}

proof fn lemma_all_inlined(document: Document, def: DefinitionView, at: Seq<usize>, n: int, m: int)
    requires
        0 <= m < n <= at.len(),
        inlined_at(document, def, at, n) is Some,
    ensures
        inlined(document, def, document.references@[at[m] as int].span) is Some,
        holds_run(
            inlined_at(document, def, at, n)->0,
            inlined(document, def, document.references@[at[m] as int].span)->0,
        ),
    decreases n,
{
    let before = inlined_at(document, def, at, n - 1)->0;
    let last = inlined(document, def, document.references@[at[n - 1] as int].span)->0;
    let edits = inlined_at(document, def, at, n)->0;
    assert(edits == before + last);
    if m == n - 1 {
        let k = before.len() as int;
        assert(edits.subrange(k, k + last.len()) =~= last);
    } else {
        lemma_all_inlined(document, def, at, n - 1, m);
        let own = inlined(document, def, document.references@[at[m] as int].span)->0;
        let k = choose|k: int|
            0 <= k && k + own.len() <= before.len() && own == #[trigger] before.subrange(
                k,
                k + own.len(),
            );
        assert(edits.subrange(k, k + own.len()) =~= own);
    }
}

/// Inlining everywhere reaches every reference to the name, however many there are: for each of them
/// the edits hold what inlining just that one does, starting with the edit that replaces it. The last
/// edit removes the definition.
pub proof fn law_inlining_everywhere_leaves_no_reference(
    document: Document,
    selection: Range,
    k: int,
)
    requires
        InlineAll::outcome(document, selection) is Some,
        0 <= k < document.references@.len(),
        document.references@[k].name@ == definition_selected(document, selection)->0.name,
    ensures
        ({
            let def = definition_selected(document, selection)->0;
            let edits = InlineAll::outcome(document, selection)->0.edits;
            let span = document.references@[k].span;
            let own = inlined(document, def, span)->0;
            &&& definition_selected(document, selection) is Some
            &&& inlined(document, def, span) is Some
            &&& own.len() > 0
            &&& own[0].range == range_between(document.bytes(), span)
            &&& holds_run(edits, own)
            &&& edits.last() == (EditView {
                range: range_between(document.bytes(), def.delete),
                new_text: Seq::empty(),
            })
        }),
{
    let def = definition_selected(document, selection)->0;
    let references = document.references@;
    assert(references.len() == document.references.len());
    let at = references_to(document, def.name);
    let fits = refers(references, def.name);
    lemma_kept(references.len() as int, fits);
    assert(fits(k));
    assert(at.contains(k as usize));
    let m = choose|m: int| 0 <= m < at.len() && at[m] == k as usize;
    lemma_all_inlined(document, def, at, at.len() as int, m);
    let all = inlined_at(document, def, at, at.len() as int)->0;
    let edits = InlineAll::outcome(document, selection)->0.edits;
    let own = inlined(document, def, references[k].span)->0;
    let j = choose|j: int|
        0 <= j && j + own.len() <= all.len() && own == #[trigger] all.subrange(j, j + own.len());
    assert(edits.subrange(j, j + own.len()) =~= own);
}

/// Whether `k` is the first of the spans that hold an offset.
pub open spec fn first_on(document: Document, offset: int, k: int) -> bool {
    let references = document.references@;
    &&& 0 <= k < references.len()
    &&& references[k].span.start <= offset < references[k].span.end
    &&& forall|j: int|
        0 <= j < k ==> !((#[trigger] references[j]).span.start <= offset < references[j].span.end)
}

/// Whether an offset lies on the left-hand side of no definition.
pub open spec fn beside_definitions(document: Document, offset: int) -> bool {
    let all = definitions_of(document);
    forall|j: int|
        0 <= j < all.len() ==> !((#[trigger] all[j]).lhs_region.start <= offset
            < all[j].lhs_region.end)
}

proof fn lemma_on_reference(document: Document, selection: Range, offset: int, k: int)
    requires
        offset_of(document.bytes(), selection.start) == Some(offset),
        first_on(document, offset, k),
    ensures
        reference_selected(document, selection) == Some(k as usize),
{
    let references = document.references@;
    assert(references.len() == document.references.len());
    let fits = symbol_on(references, offset);
    assert(fits(k));
    lemma_first_from(0, references.len() as int, fits);
    match first_from(0, references.len() as int, fits) {
        Some(j) => {
            assert(fits(j as int));
            if j > k {
                assert(!fits(k));
            }
        },
        None => {
            assert(!fits(k));
        },
    }
}

/// With the cursor on a reference, inlining here does to that reference what inlining everywhere does
/// to it, and leaves the definition.
pub proof fn law_inlining_here_is_part_of_inlining_everywhere(
    document: Document,
    selection: Range,
    offset: int,
    k: int,
)
    requires
        document.wf(),
        offset_of(document.bytes(), selection.start) == Some(offset),
        first_on(document, offset, k),
        beside_definitions(document, offset),
        InlineAll::outcome(document, selection) is Some,
    ensures
        InlineHere::applies(document, selection),
        InlineHere::outcome(document, selection) is Some,
        ({
            let here = InlineHere::outcome(document, selection)->0.edits;
            let all = InlineAll::outcome(document, selection)->0.edits;
            &&& here.len() > 0
            &&& here[0].range == range_between(document.bytes(), document.references@[k].span)
            &&& holds_run(all, here)
            &&& all.last() == (EditView {
                range: range_between(
                    document.bytes(),
                    definition_of(document, document.references@[k].name@)->0.delete,
                ),
                new_text: Seq::empty(),
            })
        }),
{
    lemma_on_reference(document, selection, offset, k);
    lemma_no_lhs(definitions_of(document), offset, 0);
    let name = document.references@[k].name@;
    assert(document.references@.len() == document.references.len());
    assert(definition_selected(document, selection) == definition_of(document, name));
    lemma_definition_name(document, name);
    law_inlining_everywhere_leaves_no_reference(document, selection, k);
}

proof fn lemma_no_lhs(all: Seq<DefinitionView>, offset: int, i: int)
    requires
        0 <= i,
        forall|j: int|
            0 <= j < all.len() ==> !((#[trigger] all[j]).lhs_region.start <= offset
                < all[j].lhs_region.end),
    ensures
        first_from(i, all.len() as int, lhs_on(all, offset)) is None,
    decreases all.len() - i,
{
    if i < all.len() {
        assert(!lhs_on(all, offset)(i));
        lemma_no_lhs(all, offset, i + 1);
    }
}

proof fn lemma_definition_name(document: Document, name: Seq<char>)
    requires
        document.wf(),
        definition_of(document, name) is Some,
    ensures
        definition_of(document, name)->0.name == name,
{
    let all = definitions_of(document);
    let nodes = document.nodes();
    assert(nodes.len() == document.tree.nodes.len());
    document.tree.lemma_wf();
    lemma_few_children(nodes, 0);
    lemma_few_definitions(nodes, document.text@, children_of(nodes, 0), 0);
    let fits = defines(all, name);
    lemma_first_from(0, all.len() as int, fits);
    assert(fits(first_from(0, all.len() as int, fits)->0 as int));
}

proof fn lemma_few_definitions(nodes: Seq<Node>, src: Seq<char>, row: Seq<usize>, i: int)
    requires
        0 <= i <= row.len(),
    ensures
        definitions_from(nodes, src, row, i).len() <= row.len() - i,
    decreases row.len() - i,
{
    if i < row.len() {
        if nodes[row[i] as int].kind@ != "assignment_lhs"@ {
            lemma_few_definitions(nodes, src, row, i + 1);
        } else {
            lemma_rhs_past(nodes, row, rhs_first(nodes, row, i));
            lemma_few_definitions(nodes, src, row, rhs_past(nodes, row, rhs_first(nodes, row, i)));
        }
    }
}

/// Whether a reference stands directly in a block.
pub open spec fn stands_in_block(document: Document, reference: Span) -> bool {
    let nodes = document.nodes();
    let node = smallest_from(nodes, 0, reference.start as int, reference.end as int);
    let parent = nodes[node].parent as int;
    node != 0 && (nodes[parent].kind@ == "expression_block"@ || nodes[parent].kind@
        == "parallel_music"@)
}

/// Whether each event that shares a byte with a span has its duration written.
pub open spec fn says_durations(document: Document, span: Span) -> bool {
    forall|k: int|
        0 <= k < document.events().len() && (#[trigger] document.events()[k]).span.start < span.end
            && document.events()[k].span.end > span.start ==> document.events()[k].duration_written
}

/// A value goes in as it is written. Where the reference stands in a block, a value that is a block by
/// itself goes in without its delimiters, so that its music joins that around it; everywhere else it
/// keeps them.
pub proof fn law_a_value_goes_in_as_it_is_written(
    document: Document,
    def: DefinitionView,
    reference: Span,
    content: Span,
)
    requires
        reference.start <= reference.end,
        !(def.shape is RelativeBlock),
        def.shape is Block && stands_in_block(document, reference) ==> content
            == def.shape->Block_inner,
        !(def.shape is Block && stands_in_block(document, reference)) ==> content == def.rhs,
        says_durations(document, content),
    ensures
        ({
            let edits = inlined(document, def, reference);
            &&& edits is Some
            &&& edits->0.len() > 0
            &&& edits->0[0].range == range_between(document.bytes(), reference)
            &&& edits->0[0].new_text == cut_of(
                document.text@,
                content.start as int,
                content.end as int,
            )
        }),
{
    let events = document.events();
    assert(events.len() == document.notes.events.len());
    let fits = overlapping(events, content);
    let at = kept(events.len() as int, fits);
    lemma_kept(events.len() as int, fits);
    if at.len() > 0 {
        assert(fits(at[0] as int));
        assert(events[at[0] as int].duration_written);
    }
    let around = surroundings_of(document, reference);
    assert(around.in_block == stands_in_block(document, reference));
    let splices = first_note_splices(document.text@, events, at, around, false);
    assert(splices =~= Seq::empty());
    assert(latest_first(splices) =~= Seq::empty());
}

/// Music that is relative by itself keeps its command and its block where the music around it is not
/// relative, or where there is no block around it.
pub proof fn law_relative_music_keeps_its_command_outside_relative_music(
    document: Document,
    def: DefinitionView,
    reference: Span,
)
    requires
        reference.start <= reference.end,
        def.shape is RelativeBlock,
        !stands_in_block(document, reference) || forall|k: int|
            0 <= k < document.events().len() ==> (#[trigger] document.events()[k]).relative is None
                || document.events()[k].span.end > reference.start
                && document.events()[k].span.start < reference.end,
        says_durations(document, def.rhs),
    ensures
        inlined(document, def, reference) is Some,
        inlined(document, def, reference)->0.len() > 0,
        inlined(document, def, reference)->0[0].new_text == cut_of(
            document.text@,
            def.rhs.start as int,
            def.rhs.end as int,
        ),
{
    let events = document.events();
    let n = events.len() as int;
    assert(events.len() == document.notes.events.len());
    let around = surroundings_of(document, reference);
    assert(around.in_block == stands_in_block(document, reference));
    if around.in_block {
        let nodes = document.nodes();
        let node = smallest_from(nodes, 0, reference.start as int, reference.end as int);
        let block = nodes[nodes[node].parent as int];
        let earlier = before_reference(events, reference, block.start as int);
        let later = after_reference(events, reference, block.end as int);
        lemma_last_below(n, earlier);
        lemma_first_from(0, n, later);
        if let Some(k) = around.before {
            assert(earlier(k as int));
            assert(events[k as int].relative is None);
        }
        if let Some(k) = around.after {
            assert(later(k as int));
        }
    }
    assert(!around_relative(events, around));
    let fits = overlapping(events, def.rhs);
    let at = kept(n, fits);
    lemma_kept(n, fits);
    if at.len() > 0 {
        assert(fits(at[0] as int));
        assert(events[at[0] as int].duration_written);
    }
    let splices = first_note_splices(document.text@, events, at, around, false);
    assert(splices =~= Seq::empty());
    assert(latest_first(splices) =~= Seq::empty());
}

/// The pitch that inlined music follows is the one that the event before the reference leaves, and
/// where that leaves none the one that the note behind the reference is read from.
pub proof fn law_inlined_music_follows_the_music_before_it(events: Seq<Event>, around: Surroundings)
    ensures
        ({
            let outer = outer_pitch(events, around);
            let left = around.before is Some && pitch_carried(
                events[around.before->0 as int],
            ) is Some;
            let read = around.after is Some && events[around.after->0 as int].relative is Some;
            &&& left ==> outer == pitch_carried(events[around.before->0 as int])
            &&& !left && read ==> outer == Some(
                events[around.after->0 as int].relative->0.pitch,
            )
            &&& !left && !read ==> outer is None
        }),
{
}

/// Whether the definition at `k` is the only one of its name.
pub open spec fn only_definition(document: Document, name: Seq<char>, k: int) -> bool {
    let all = definitions_of(document);
    &&& 0 <= k < all.len()
    &&& all[k].name == name
    &&& forall|j: int| 0 <= j < all.len() && j != k ==> (#[trigger] all[j]).name != name
}

/// A name is inlined only where the file defines it once: which of two definitions a reference means
/// is not for inlining to say.
pub proof fn law_only_a_single_definition_is_inlined(
    document: Document,
    name: Seq<char>,
    j: int,
    k: int,
)
    requires
        document.wf(),
    ensures
        only_definition(document, name, k) ==> definition_of(document, name) == Some(
            definitions_of(document)[k],
        ),
        0 <= j < k < definitions_of(document).len() && definitions_of(document)[j].name == name
            && definitions_of(document)[k].name == name ==> definition_of(document, name) is None,
        (forall|i: int|
            0 <= i < definitions_of(document).len() ==> (#[trigger] definitions_of(
                document,
            )[i]).name != name) ==> definition_of(document, name) is None,
{
    let all = definitions_of(document);
    let nodes = document.nodes();
    assert(nodes.len() == document.tree.nodes.len());
    document.tree.lemma_wf();
    lemma_few_children(nodes, 0);
    lemma_few_definitions(nodes, document.text@, children_of(nodes, 0), 0);
    let n = all.len() as int;
    let fits = defines(all, name);
    lemma_first_from(0, n, fits);
    match first_from(0, n, fits) {
        Some(m) => {
            assert(fits(m as int));
            assert(all[m as int].name == name);
            lemma_first_from(m + 1, n, fits);
            match first_from(m + 1, n, fits) {
                Some(l) => {
                    assert(fits(l as int));
                    assert(all[l as int].name == name);
                },
                None => {
                    if 0 <= j < k < n && all[j].name == name && all[k].name == name {
                        assert(fits(j) && fits(k));
                        assert(m <= j);
                        assert(!fits(k));
                    }
                },
            }
        },
        None => {
            if 0 <= k < n {
                assert(!fits(k));
            }
        },
    }
}

/// A definition that nothing refers to is not offered for inlining everywhere.
pub proof fn law_a_definition_without_references_is_not_inlined(
    document: Document,
    selection: Range,
    offset: int,
    k: int,
)
    requires
        document.wf(),
        offset_of(document.bytes(), selection.start) == Some(offset),
        0 <= k < definitions_of(document).len(),
        definitions_of(document)[k].lhs_region.start <= offset
            < definitions_of(document)[k].lhs_region.end,
        forall|j: int|
            0 <= j < k ==> !((#[trigger] definitions_of(document)[j]).lhs_region.start <= offset
                < definitions_of(document)[j].lhs_region.end),
    ensures
        definition_selected(document, selection) is Some <==> exists|r: int|
            0 <= r < document.references@.len() && (#[trigger] document.references@[r]).name@
                == definitions_of(document)[k].name,
        definition_selected(document, selection) is Some ==> definition_selected(
            document,
            selection,
        ) == Some(definitions_of(document)[k]),
{
    let all = definitions_of(document);
    let nodes = document.nodes();
    assert(nodes.len() == document.tree.nodes.len());
    document.tree.lemma_wf();
    lemma_few_children(nodes, 0);
    lemma_few_definitions(nodes, document.text@, children_of(nodes, 0), 0);
    let n = all.len() as int;
    let fits = lhs_on(all, offset);
    lemma_first_from(0, n, fits);
    assert(fits(k));
    match first_from(0, n, fits) {
        Some(m) => {
            assert(fits(m as int));
            if m < k {
                assert(!(all[m as int].lhs_region.start <= offset
                    < all[m as int].lhs_region.end));
            } else if m > k {
                assert(!fits(k));
            }
        },
        None => {
            assert(!fits(k));
        },
    }
    let references = document.references@;
    assert(references.len() == document.references.len());
    let to = refers(references, all[k].name);
    let at = references_to(document, all[k].name);
    lemma_kept(references.len() as int, to);
    if at.len() > 0 {
        assert(to(at[0] as int));
        assert(references[at[0] as int].name@ == all[k].name);
    }
    if exists|r: int| 0 <= r < references.len() && (#[trigger] references[r]).name@ == all[k].name {
        let r = choose|r: int|
            0 <= r < references.len() && (#[trigger] references[r]).name@ == all[k].name;
        assert(to(r));
        assert(at.contains(r as usize));
    }
}

} // verus!
