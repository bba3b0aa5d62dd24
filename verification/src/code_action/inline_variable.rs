//! The "inline variable" refactorings.
//!
//! A `\foo` reference is replaced with the music `foo` is defined as, with the first note's duration
//! and octave made explicit so that the spliced music keeps its meaning in its new surroundings.
//! [`InlineAll`] inlines every reference and deletes the definition; [`InlineHere`] inlines the one
//! reference under the cursor.
use vstd::prelude::*;
use vstd::utf8::*;
use crate::assignment::{lemma_rhs_past, rhs_end, rhs_first, rhs_past, trimmed_span};
use crate::code_action::note_state::{
    leading_note, note_leading, octave_edit, octave_fix, octave_respelling, pitch_carried,
    pitch_of, respelling,
};
use crate::code_action::splice::{
    Splice, SpliceView, apply_splices, latest_first, splice_views, spliced,
};
use crate::code_action::{ActionKind, CodeAction, Offer, Resolved, ResolvedView, resolves};
use crate::command::reader::{block_kind, is_block};
use crate::document::{Document, Symbol};
use crate::finding::{first_from, kept, last_below, lemma_first_from, lemma_kept};
use crate::line_struct::{Span, line_start, offset_of, range_between, start_of_line, within};
use crate::notes::{Duration, Event, Pitch, default_duration, overlaps};
use crate::protocol::{EditView, Range, TextEdit, edit_views};
use crate::syntax::{Node, SyntaxTree, children_of, parent_of, smallest_from};
use crate::text::{cut, cut_of, same, trim_range};

verus! {

/// The shape of a definition's right-hand side, as far as splicing it cares.
#[derive(Debug, Clone, Copy, PartialEq, Eq, Structural)]
pub enum RhsShape {
    /// A single `{ … }` block; `inner` is the trimmed extent inside the braces.
    Block { inner: Span },
    /// A `\relative <ref> { … }` block; `inner` is the trimmed extent inside the inner braces.
    RelativeBlock { inner: Span },
    /// Anything else: spliced verbatim.
    Other,
}

/// A top-level `name = rhs` definition, with everything inlining needs.
#[derive(Debug)]
pub struct Definition {
    pub name: String,
    /// From the left-hand side to the start of the right-hand side.
    pub lhs_region: Span,
    /// The trimmed extent of the right-hand side.
    pub rhs: Span,
    pub shape: RhsShape,
    /// What "Inline all" removes: the whole definition and its trailing blank line.
    pub delete: Span,
}

/// What a [`Definition`] holds.
pub struct DefinitionView {
    pub name: Seq<char>,
    pub lhs_region: Span,
    pub rhs: Span,
    pub shape: RhsShape,
    pub delete: Span,
}

impl View for Definition {
    type V = DefinitionView;

    open spec fn view(&self) -> DefinitionView {
        DefinitionView {
            name: self.name@,
            lhs_region: self.lhs_region,
            rhs: self.rhs,
            shape: self.shape,
            delete: self.delete,
        }
    }
}

/// What each of a run of definitions holds.
pub open spec fn definition_views(definitions: Seq<Definition>) -> Seq<DefinitionView> {
    definitions.map_values(|definition: Definition| definition@)
}

/// The trimmed extent between a block's first and last child, or of the whole block where it has
/// no children.
pub open spec fn inside_block(nodes: Seq<Node>, src: Seq<char>, i: int) -> Span {
    let row = children_of(nodes, i);
    if row.len() > 0 {
        trimmed_span(
            src,
            nodes[row[0] as int].end as int,
            nodes[row.last() as int].start as int,
        )
    } else {
        trimmed_span(src, nodes[i].start as int, nodes[i].end as int)
    }
}

/// The trimmed byte extent inside a block's delimiters.
pub fn block_inner(tree: &SyntaxTree, block: usize, src: &str) -> (r: Span)
    requires
        tree.wf(),
        block < tree.nodes@.len(),
    ensures
        r == inside_block(tree.nodes@, src@, block as int),
{
    let row = tree.children(block);
    let (start, end) = if row.len() > 0 {
        (tree.nodes[row[0]].end, tree.nodes[row[row.len() - 1]].start)
    } else {
        (tree.nodes[block].start, tree.nodes[block].end)
    };
    let (start, end) = trim_range(src, start, end);
    Span::new(start, end)
}

/// The shape of a right-hand side made of the nodes `rhs`.
pub open spec fn shape_of(nodes: Seq<Node>, src: Seq<char>, rhs: Seq<usize>) -> RhsShape {
    if rhs.len() == 1 && nodes[rhs[0] as int].kind@ == "expression_block"@ {
        RhsShape::Block { inner: inside_block(nodes, src, rhs[0] as int) }
    } else if rhs.len() > 0 && nodes[rhs[0] as int].kind@ == "escaped_word"@ && cut_of(
        src,
        nodes[rhs[0] as int].start as int,
        nodes[rhs[0] as int].end as int,
    ) == "\\relative"@ && nodes[rhs.last() as int].kind@ == "expression_block"@ {
        RhsShape::RelativeBlock { inner: inside_block(nodes, src, rhs.last() as int) }
    } else {
        RhsShape::Other
    }
}

/// Classifies the right-hand side from its nodes: those of `row` from `first` up to `past`.
pub fn rhs_shape(tree: &SyntaxTree, row: &Vec<usize>, first: usize, past: usize, src: &str) -> (r:
    RhsShape)
    requires
        tree.wf(),
        forall|k: int| 0 <= k < row@.len() ==> (#[trigger] row@[k]) < tree.nodes@.len(),
        first < past <= row@.len(),
    ensures
        r == shape_of(tree.nodes@, src@, row@.subrange(first as int, past as int)),
{
    let ghost rhs = row@.subrange(first as int, past as int);
    let head = row[first];
    let last = row[past - 1];
    assert(rhs[0] == head);
    assert(rhs.last() == last);
    if past - first == 1 && tree.is(head, "expression_block") {
        return RhsShape::Block { inner: block_inner(tree, head, src) };
    }
    if tree.is(head, "escaped_word") && same(
        cut(src, tree.nodes[head].start, tree.nodes[head].end),
        "\\relative",
    ) && tree.is(last, "expression_block") {
        return RhsShape::RelativeBlock { inner: block_inner(tree, last, src) };
    }
    RhsShape::Other
}

/// Just past the newline at or after `at`, or `at` itself at the end of the text.
pub open spec fn line_past(bytes: Seq<u8>, at: int) -> int
    decreases bytes.len() - at,
{
    if at < 0 || at >= bytes.len() {
        at
    } else if bytes[at] == 10 {
        at + 1
    } else {
        line_past(bytes, at + 1)
    }
}

/// Just past the spaces and tabs from `at` on.
pub open spec fn past_blanks(bytes: Seq<u8>, at: int) -> int
    decreases bytes.len() - at,
{
    if 0 <= at < bytes.len() && (bytes[at] == 32 || bytes[at] == 9) {
        past_blanks(bytes, at + 1)
    } else {
        at
    }
}

/// What deleting a definition removes: from the start of its line through its trailing newline, and
/// one following blank line if there is one.
pub open spec fn deleted(src: Seq<char>, lhs_start: int, rhs_end: int) -> Span {
    let bytes = encode_utf8(src);
    let end = line_past(bytes, rhs_end);
    let scan = past_blanks(bytes, end);
    Span {
        start: line_start(bytes, within(bytes, lhs_start)) as usize,
        end: if scan >= bytes.len() {
            bytes.len() as usize
        } else if bytes[scan] == 10 {
            (scan + 1) as usize
        } else {
            end as usize
        },
    }
}

/// The bytes to remove when deleting the definition starting at `lhs_start` and ending at
/// `rhs_end`.
pub fn delete_span(lhs_start: usize, rhs_end: usize, src: &str) -> (r: Span)
    ensures
        r == deleted(src@, lhs_start as int, rhs_end as int),
{
    let start = start_of_line(src, lhs_start);
    let bytes = src.as_bytes();
    let mut end: usize = rhs_end;
    // Through the end of the right-hand side's line.
    while end < bytes.len() && bytes[end] != 10
        invariant
            bytes@ == encode_utf8(src@),
            line_past(bytes@, rhs_end as int) == line_past(bytes@, end as int),
        decreases bytes.len() - end,
    {
        end = end + 1;
    }
    if end < bytes.len() {
        end = end + 1;
    }
    assert(end == line_past(bytes@, rhs_end as int));
    // Swallow one following blank line.
    let mut scan: usize = end;
    while scan < bytes.len() && (bytes[scan] == 32 || bytes[scan] == 9)
        invariant
            bytes@ == encode_utf8(src@),
            past_blanks(bytes@, end as int) == past_blanks(bytes@, scan as int),
        decreases bytes.len() - scan,
    {
        scan = scan + 1;
    }
    if scan >= bytes.len() {
        end = bytes.len();
    } else if bytes[scan] == 10 {
        end = scan + 1;
    }
    Span::new(start, end)
}

/// The definition that the assignment at `i` of a row makes; none where its right-hand side is
/// empty.
pub open spec fn definition_at(nodes: Seq<Node>, src: Seq<char>, row: Seq<usize>, i: int) -> Option<
    DefinitionView,
> {
    let first = rhs_first(nodes, row, i);
    let past = rhs_past(nodes, row, first);
    if first < past {
        let lhs = nodes[row[i] as int];
        let rhs = trimmed_span(
            src,
            nodes[row[first] as int].start as int,
            nodes[row[past - 1] as int].end as int,
        );
        Some(
            DefinitionView {
                name: cut_of(src, lhs.start as int, lhs.end as int),
                lhs_region: Span { start: lhs.start, end: rhs.start },
                rhs,
                shape: shape_of(nodes, src, row.subrange(first, past)),
                delete: deleted(src, lhs.start as int, rhs.end as int),
            },
        )
    } else {
        None
    }
}

/// The definitions among a row of top-level nodes, from `i` on.
pub open spec fn definitions_from(nodes: Seq<Node>, src: Seq<char>, row: Seq<usize>, i: int) -> Seq<
    DefinitionView,
>
    decreases row.len() - i,
    via definitions_from_decreases
{
    if i < 0 || i >= row.len() {
        Seq::empty()
    } else if nodes[row[i] as int].kind@ != "assignment_lhs"@ {
        definitions_from(nodes, src, row, i + 1)
    } else {
        let rest = definitions_from(
            nodes,
            src,
            row,
            rhs_past(nodes, row, rhs_first(nodes, row, i)),
        );
        match definition_at(nodes, src, row, i) {
            Some(definition) => seq![definition] + rest,
            None => rest,
        }
    }
}

#[via_fn]
proof fn definitions_from_decreases(nodes: Seq<Node>, src: Seq<char>, row: Seq<usize>, i: int) {
    if 0 <= i < row.len() {
        lemma_rhs_past(nodes, row, rhs_first(nodes, row, i));
    }
}

/// Every top-level `name = rhs` definition of a document, in source order.
pub open spec fn definitions_of(document: Document) -> Seq<DefinitionView> {
    definitions_from(document.nodes(), document.text@, children_of(document.nodes(), 0), 0)
}

/// Assembles a [`Definition`] from the assignment at `i` of `row` and its right-hand side, the
/// nodes from `first` up to `past`; or `None` if the right-hand side is empty.
pub fn build_definition(
    tree: &SyntaxTree,
    row: &Vec<usize>,
    i: usize,
    first: usize,
    past: usize,
    src: &str,
) -> (r: Option<Definition>)
    requires
        tree.wf(),
        forall|k: int| 0 <= k < row@.len() ==> (#[trigger] row@[k]) < tree.nodes@.len(),
        i < row@.len(),
        first == rhs_first(tree.nodes@, row@, i as int),
        past == rhs_past(tree.nodes@, row@, first as int),
        past <= row@.len(),
    ensures
        match r {
            Some(definition) => definition_at(tree.nodes@, src@, row@, i as int) == Some(
                definition@,
            ),
            None => definition_at(tree.nodes@, src@, row@, i as int) is None,
        },
{
    if first >= past {
        return None;
    }
    let lhs = tree.span(row[i]);
    let name = cut(src, lhs.start, lhs.end).to_string();
    let (start, end) = trim_range(src, tree.nodes[row[first]].start, tree.nodes[row[past - 1]].end);
    let rhs = Span::new(start, end);
    let shape = rhs_shape(tree, row, first, past, src);
    let delete = delete_span(lhs.start, rhs.end, src);
    Some(Definition { name, lhs_region: Span::new(lhs.start, rhs.start), rhs, shape, delete })
}

/// Every top-level `name = rhs` definition in source order.
pub fn definitions(document: &Document) -> (r: Vec<Definition>)
    requires
        document.wf(),
    ensures
        definition_views(r@) == definitions_of(*document),
{
    let src = document.text.as_str();
    let tree = &document.tree;
    proof {
        tree.lemma_root();
    }
    let row = tree.children(0);
    let ghost nodes = tree.nodes@;
    let ghost all = definitions_of(*document);
    let mut out: Vec<Definition> = Vec::new();
    let mut i: usize = 0;
    assert(definition_views(out@) + all =~= all);
    while i < row.len()
        invariant
            document.wf(),
            tree == document.tree,
            nodes == tree.nodes@,
            src@ == document.text@,
            forall|k: int| 0 <= k < row@.len() ==> (#[trigger] row@[k]) < tree.nodes@.len(),
            row@ == children_of(nodes, 0),
            i <= row@.len(),
            all == definitions_of(*document),
            definition_views(out@) + definitions_from(nodes, src@, row@, i as int) == all,
        decreases row.len() - i,
    {
        if !tree.is(row[i], "assignment_lhs") {
            i = i + 1;
            continue;
        }
        // Bound the right-hand side at its first complete music expression: up to and including
        // the first block, stopping early at the next top-level assignment.
        let first: usize = if i + 1 < row.len() && tree.is(row[i + 1], "punctuation") {
            i + 2
        } else {
            i + 1
        };
        let j = rhs_end(tree, &row, first);
        let ghost before = definition_views(out@);
        let ghost rest = definitions_from(nodes, src@, row@, j as int);
        match build_definition(tree, &row, i, first, j, src) {
            Some(definition) => {
                out.push(definition);
                assert(definition_views(out@) + rest =~= before + (seq![definition@] + rest));
            },
            None => {},
        }
        i = j;
    }
    assert(definition_views(out@) + Seq::<DefinitionView>::empty() =~= definition_views(out@));
    out
}

/// Which events end before a reference, inside the block that starts at `block`.
pub open spec fn before_reference(events: Seq<Event>, reference: Span, block: int) -> spec_fn(
    int,
) -> bool {
    |k: int| events[k].span.end <= reference.start && events[k].span.start >= block
}

/// Which events start behind a reference, inside the block that ends at `block`.
pub open spec fn after_reference(events: Seq<Event>, reference: Span, block: int) -> spec_fn(
    int,
) -> bool {
    |k: int| events[k].span.start >= reference.end && events[k].span.end <= block
}

/// Which events share a byte with a span.
pub open spec fn overlapping(events: Seq<Event>, span: Span) -> spec_fn(int) -> bool {
    |k: int| overlaps(events[k], span.start as int, span.end as int)
}

/// The first note among the listed events that carries an octave.
pub open spec fn first_leading(events: Seq<Event>, at: Seq<usize>) -> Option<(Span, Pitch)>
    decreases at.len(),
{
    if at.len() == 0 {
        None
    } else {
        match note_leading(events[at[0] as int]) {
            Some(found) => Some(found),
            None => first_leading(events, at.drop_first()),
        }
    }
}

/// The last pitch among the listed events.
pub open spec fn last_pitch(events: Seq<Event>, at: Seq<usize>) -> Option<Pitch>
    decreases at.len(),
{
    if at.len() == 0 {
        None
    } else {
        match pitch_carried(events[at.last() as int]) {
            Some(found) => Some(found),
            None => last_pitch(events, at.drop_last()),
        }
    }
}

pub fn find_leading(events: &Vec<Event>, at: &Vec<usize>) -> (r: Option<(Span, Pitch)>)
    requires
        forall|k: int| 0 <= k < at@.len() ==> (#[trigger] at@[k]) < events@.len(),
    ensures
        r == first_leading(events@, at@),
{
    let mut k: usize = 0;
    assert(at@.subrange(0, at@.len() as int) =~= at@);
    while k < at.len()
        invariant
            k <= at@.len(),
            forall|k: int| 0 <= k < at@.len() ==> (#[trigger] at@[k]) < events@.len(),
            first_leading(events@, at@) == first_leading(
                events@,
                at@.subrange(k as int, at@.len() as int),
            ),
        decreases at.len() - k,
    {
        assert(at@.subrange(k as int, at@.len() as int).drop_first() =~= at@.subrange(
            k + 1,
            at@.len() as int,
        ));
        match leading_note(&events[at[k]]) {
            Some(found) => {
                return Some(found);
            },
            None => {},
        }
        k = k + 1;
    }
    None
}

pub fn find_last_pitch(events: &Vec<Event>, at: &Vec<usize>) -> (r: Option<Pitch>)
    requires
        forall|k: int| 0 <= k < at@.len() ==> (#[trigger] at@[k]) < events@.len(),
    ensures
        r == last_pitch(events@, at@),
{
    let mut k: usize = at.len();
    assert(at@.subrange(0, at@.len() as int) =~= at@);
    while k > 0
        invariant
            k <= at@.len(),
            forall|k: int| 0 <= k < at@.len() ==> (#[trigger] at@[k]) < events@.len(),
            last_pitch(events@, at@) == last_pitch(events@, at@.subrange(0, k as int)),
        decreases k,
    {
        assert(at@.subrange(0, k as int).drop_last() =~= at@.subrange(0, k - 1));
        match pitch_of(&events[at[k - 1]]) {
            Some(found) => {
                return Some(found);
            },
            None => {},
        }
        k = k - 1;
    }
    None
}

/// The events that share a byte with a span, by their place in the list.
pub fn events_overlapping(events: &Vec<Event>, span: Span) -> (r: Vec<usize>)
    ensures
        r@ == kept(events@.len() as int, overlapping(events@, span)),
        forall|k: int| 0 <= k < r@.len() ==> (#[trigger] r@[k]) < events@.len(),
{
    let ghost fits = overlapping(events@, span);
    let mut out: Vec<usize> = Vec::new();
    let mut k: usize = 0;
    while k < events.len()
        invariant
            k <= events@.len(),
            fits == overlapping(events@, span),
            out@ == kept(k as int, fits),
        decreases events.len() - k,
    {
        if events[k].span.start < span.end && events[k].span.end > span.start {
            out.push(k);
        }
        k = k + 1;
    }
    proof {
        lemma_kept(k as int, fits);
    }
    out
}

/// What surrounds a reference: the block it sits directly in, and the events that flank it there.
pub struct Surroundings {
    pub in_block: bool,
    pub before: Option<usize>,
    pub after: Option<usize>,
}

/// The surroundings of a reference.
pub open spec fn surroundings_of(document: Document, reference: Span) -> Surroundings {
    let nodes = document.nodes();
    let events = document.events();
    let n = events.len() as int;
    let node = smallest_from(nodes, 0, reference.start as int, reference.end as int);
    match parent_of(nodes, node) {
        Some(block) => if block_kind(nodes[block as int].kind@) {
            Surroundings {
                in_block: true,
                before: last_below(
                    n,
                    before_reference(events, reference, nodes[block as int].start as int),
                ),
                after: first_from(
                    0,
                    n,
                    after_reference(events, reference, nodes[block as int].end as int),
                ),
            }
        } else {
            Surroundings { in_block: false, before: None, after: None }
        },
        None => Surroundings { in_block: false, before: None, after: None },
    }
}

/// Whether the listed event is read in relative mode.
pub open spec fn is_relative(events: Seq<Event>, at: Option<usize>) -> bool {
    match at {
        Some(k) => events[k as int].relative is Some,
        None => false,
    }
}

/// Whether the music around a reference is relative.
pub open spec fn around_relative(events: Seq<Event>, around: Surroundings) -> bool {
    is_relative(events, around.before) || is_relative(events, around.after)
}

/// What a definition splices in at a place, and whether the spliced notes join the relative chain
/// there.
pub open spec fn spliced_in(def: DefinitionView, in_block: bool, relative: bool) -> (Span, bool) {
    match def.shape {
        RhsShape::Block { inner } => if in_block {
            (inner, false)
        } else {
            (def.rhs, false)
        },
        RhsShape::RelativeBlock { inner } => if in_block && relative {
            (inner, true)
        } else {
            (def.rhs, false)
        },
        RhsShape::Other => (def.rhs, false),
    }
}

/// Whether a definition is spliced in without the delimiters of its block.
pub open spec fn strips(def: DefinitionView, in_block: bool, relative: bool) -> bool {
    match def.shape {
        RhsShape::Block { .. } => in_block,
        RhsShape::RelativeBlock { .. } => in_block && relative,
        RhsShape::Other => false,
    }
}

/// The reference pitch in force where a definition is spliced in: the pitch before it, or the
/// reference of the note behind it.
pub open spec fn outer_pitch(events: Seq<Event>, around: Surroundings) -> Option<Pitch> {
    let earlier = match around.before {
        Some(k) => pitch_carried(events[k as int]),
        None => None,
    };
    match earlier {
        Some(pitch) => Some(pitch),
        None => match around.after {
            Some(k) => match events[k as int].relative {
                Some(reference) => Some(reference.pitch),
                None => None,
            },
            None => None,
        },
    }
}

/// The splices that make a definition's first note explicit: its duration, where the music before
/// the reference has another one, and its octave, where it joins a relative chain.
pub open spec fn first_note_splices(
    src: Seq<char>,
    events: Seq<Event>,
    at: Seq<usize>,
    around: Surroundings,
    strip: bool,
) -> Seq<SpliceView> {
    let inherited = match around.before {
        Some(k) => events[k as int].duration@,
        None => default_duration(),
    };
    let duration = if at.len() > 0 && !events[at[0] as int].duration_written && events[at[0] as int]
        .duration@ != inherited {
        let first = events[at[0] as int];
        seq![
            SpliceView { start: first.value_end, end: first.value_end, text: first.duration@ },
        ]
    } else {
        Seq::empty()
    };
    let octave = match (strip, outer_pitch(events, around), first_leading(events, at)) {
        (true, Some(outer), Some((span, pitch))) => match respelling(src, span, pitch, outer) {
            Some((marks, text)) => seq![SpliceView { start: marks.start, end: marks.end, text }],
            None => Seq::empty(),
        },
        _ => Seq::empty(),
    };
    duration + octave
}

/// The edits that keep the note behind a reference meaning the same, once the listed events of a
/// definition sit before it.
pub open spec fn kept_meaning(
    document: Document,
    at: Seq<usize>,
    after: Option<usize>,
    strip: bool,
) -> Seq<EditView> {
    let events = document.events();
    match after {
        None => Seq::empty(),
        Some(k) => {
            let note = events[k as int];
            let duration = if at.len() > 0 && !note.duration_written && events[at.last() as int]
                .duration@ != note.duration@ {
                seq![
                    EditView {
                        range: range_between(
                            document.bytes(),
                            Span { start: note.value_end, end: note.value_end },
                        ),
                        new_text: note.duration@,
                    },
                ]
            } else {
                Seq::empty()
            };
            let octave = match (strip, last_pitch(events, at), note_leading(note)) {
                (true, Some(outer), Some((span, pitch))) => match octave_edit(
                    document,
                    span,
                    pitch,
                    outer,
                ) {
                    Some(edit) => seq![edit],
                    None => Seq::empty(),
                },
                _ => Seq::empty(),
            };
            duration + octave
        },
    }
}

/// The edits that splice a definition in at a reference; none where the reference ends before it
/// starts.
pub open spec fn inlined(document: Document, def: DefinitionView, reference: Span) -> Option<
    Seq<EditView>,
> {
    if reference.start > reference.end {
        None
    } else {
        let events = document.events();
        let around = surroundings_of(document, reference);
        let (content, strip) = spliced_in(def, around.in_block, around_relative(events, around));
        let at = kept(events.len() as int, overlapping(events, content));
        let splices = first_note_splices(document.text@, events, at, around, strip);
        Some(
            seq![
                EditView {
                    range: range_between(document.bytes(), reference),
                    new_text: spliced(
                        cut_of(document.text@, content.start as int, content.end as int),
                        content.start as int,
                        latest_first(splices),
                    ),
                },
            ] + kept_meaning(document, at, around.after, strip),
        )
    }
}

/// Looks at what surrounds a reference.
fn look_around(document: &Document, reference: Span) -> (r: Option<Surroundings>)
    requires
        document.wf(),
    ensures
        r is Some <==> reference.start <= reference.end,
        r is Some ==> r->0 == surroundings_of(*document, reference),
        r is Some && r->0.before is Some ==> r->0.before->0 < document.events().len(),
        r is Some && r->0.after is Some ==> r->0.after->0 < document.events().len(),
{
    let node = match document.tree.descendant_for_byte_range(reference.start, reference.end) {
        Some(node) => node,
        None => {
            return None;
        },
    };
    let nothing = Surroundings { in_block: false, before: None, after: None };
    let block = match document.tree.parent(node) {
        Some(block) => block,
        None => {
            return Some(nothing);
        },
    };
    if !is_block(document.tree.nodes[block].kind.as_str()) {
        return Some(nothing);
    }
    let place = document.tree.span(block);
    let events = &document.notes.events;
    let ghost n = events@.len() as int;
    let ghost before_fits = before_reference(events@, reference, place.start as int);
    let ghost after_fits = after_reference(events@, reference, place.end as int);
    let mut k: usize = events.len();
    while k > 0 && !(events[k - 1].span.end <= reference.start && events[k - 1].span.start
        >= place.start)
        invariant
            k <= events@.len(),
            before_fits == before_reference(events@, reference, place.start as int),
            n == events@.len(),
            last_below(n, before_fits) == last_below(k as int, before_fits),
        decreases k,
    {
        k = k - 1;
    }
    let before = if k > 0 {
        Some(k - 1)
    } else {
        None
    };
    let mut j: usize = 0;
    while j < events.len() && !(events[j].span.start >= reference.end && events[j].span.end
        <= place.end)
        invariant
            j <= events@.len(),
            after_fits == after_reference(events@, reference, place.end as int),
            n == events@.len(),
            first_from(0, n, after_fits) == first_from(j as int, n, after_fits),
        decreases events.len() - j,
    {
        j = j + 1;
    }
    let after = if j < events.len() {
        Some(j)
    } else {
        None
    };
    Some(Surroundings { in_block: true, before, after })
}

/// The splices that make a definition's first note explicit.
fn first_note(
    document: &Document,
    at: &Vec<usize>,
    around: &Surroundings,
    strip: bool,
) -> (r: Vec<Splice>)
    requires
        forall|k: int| 0 <= k < at@.len() ==> (#[trigger] at@[k]) < document.events().len(),
        around.before is Some ==> around.before->0 < document.events().len(),
        around.after is Some ==> around.after->0 < document.events().len(),
    ensures
        splice_views(r@) == first_note_splices(
            document.text@,
            document.events(),
            at@,
            *around,
            strip,
        ),
{
    let events = &document.notes.events;
    let mut out: Vec<Splice> = Vec::new();
    assert(splice_views(out@) =~= Seq::empty());
    if at.len() > 0 && !events[at[0]].duration_written {
        let first = &events[at[0]];
        let inherited = match around.before {
            Some(k) => events[k].duration.copy(),
            None => Duration::standard(),
        };
        if !first.duration.same(&inherited) {
            let splice = Splice {
                start: first.value_end,
                end: first.value_end,
                text: first.duration.to_text(),
            };
            out.push(splice);
            assert(splice_views(out@) =~= seq![splice@]);
        }
    }
    let ghost duration = splice_views(out@);
    if strip {
        let earlier = match around.before {
            Some(k) => pitch_of(&events[k]),
            None => None,
        };
        let outer = match earlier {
            Some(pitch) => Some(pitch),
            None => match around.after {
                Some(k) => match &events[k].relative {
                    Some(reference) => Some(reference.pitch),
                    None => None,
                },
                None => None,
            },
        };
        match (outer, find_leading(events, at)) {
            (Some(outer), Some((span, pitch))) => match octave_respelling(
                document.text.as_str(),
                span,
                pitch,
                outer,
            ) {
                Some((marks, text)) => {
                    let splice = Splice { start: marks.start, end: marks.end, text };
                    out.push(splice);
                    assert(splice_views(out@) =~= duration + seq![splice@]);
                },
                None => {},
            },
            _ => {},
        }
    }
    assert(splice_views(out@) =~= first_note_splices(
        document.text@,
        document.events(),
        at@,
        *around,
        strip,
    ));
    out
}

/// Edits keeping the note after the reference meaning the same once the definition's music sits
/// before it: it would inherit the definition's last duration, and resolve its octave against the
/// definition's last note.
pub fn following_note_edits(
    document: &Document,
    def_events: &Vec<usize>,
    after: Option<usize>,
    strip_relative: bool,
) -> (r: Vec<TextEdit>)
    requires
        document.wf(),
        forall|k: int|
            0 <= k < def_events@.len() ==> (#[trigger] def_events@[k]) < document.events().len(),
        after is Some ==> after->0 < document.events().len(),
    ensures
        edit_views(r@) == kept_meaning(*document, def_events@, after, strip_relative),
{
    let events = &document.notes.events;
    let mut edits: Vec<TextEdit> = Vec::new();
    assert(edit_views(edits@) =~= Seq::empty());
    let note = match after {
        Some(k) => &events[k],
        None => {
            return edits;
        },
    };
    if def_events.len() > 0 && !note.duration_written {
        let last = &events[def_events[def_events.len() - 1]];
        if !last.duration.same(&note.duration) {
            let edit = TextEdit {
                range: document.line_index.range_of(Span::new(note.value_end, note.value_end)),
                new_text: note.duration.to_text(),
            };
            edits.push(edit);
            assert(edit_views(edits@) =~= seq![edit@]);
        }
    }
    let ghost duration = edit_views(edits@);
    // Only a spliced `\relative` run advances the reference; otherwise the note still resolves
    // against whatever preceded the reference.
    if strip_relative {
        match (find_last_pitch(events, def_events), leading_note(note)) {
            (Some(outer), Some((span, pitch))) => match octave_fix(document, span, pitch, outer) {
                Some(edit) => {
                    edits.push(edit);
                    assert(edit_views(edits@) =~= duration + seq![edit@]);
                },
                None => {},
            },
            _ => {},
        }
    }
    assert(edit_views(edits@) =~= kept_meaning(*document, def_events@, after, strip_relative));
    edits
}

/// The edits that splice `def` into the reference at `reference`: the replacement of the `\foo`
/// token, plus any fixes to the note after it. `None` if the reference can't be located.
pub fn inline_at(document: &Document, def: &Definition, reference: Span) -> (r: Option<
    Vec<TextEdit>,
>)
    requires
        document.wf(),
    ensures
        match r {
            Some(edits) => inlined(*document, def@, reference) == Some(edit_views(edits@)),
            None => inlined(*document, def@, reference) is None,
        },
{
    let around = match look_around(document, reference) {
        Some(around) => around,
        None => {
            return None;
        },
    };
    let events = &document.notes.events;
    let before_relative = match around.before {
        Some(k) => events[k].relative.is_some(),
        None => false,
    };
    let after_relative = match around.after {
        Some(k) => events[k].relative.is_some(),
        None => false,
    };
    let in_relative = before_relative || after_relative;
    let (content_span, strip_relative) = match def.shape {
        RhsShape::Block { inner } => if around.in_block {
            (inner, false)
        } else {
            (def.rhs, false)
        },
        RhsShape::RelativeBlock { inner } => if around.in_block && in_relative {
            (inner, true)
        } else {
            (def.rhs, false)
        },
        RhsShape::Other => (def.rhs, false),
    };
    let def_events = events_overlapping(events, content_span);
    let splices = first_note(document, &def_events, &around, strip_relative);
    let content = apply_splices(
        cut(document.text.as_str(), content_span.start, content_span.end),
        content_span.start,
        splices,
    );
    let mut edits: Vec<TextEdit> = Vec::new();
    let edit = TextEdit { range: document.line_index.range_of(reference), new_text: content };
    edits.push(edit);
    assert(edit_views(edits@) =~= seq![edit@]);
    let mut following = following_note_edits(document, &def_events, around.after, strip_relative);
    let ghost one = edits@;
    let ghost more = following@;
    edits.append(&mut following);
    assert(edit_views(edits@) =~= edit_views(one) + edit_views(more));
    Some(edits)
}

/// Which symbols an offset is on.
pub open spec fn symbol_on(symbols: Seq<Symbol>, offset: int) -> spec_fn(int) -> bool {
    |k: int| symbols[k].span.has(offset)
}

/// The reference under the start of a selection.
pub open spec fn reference_selected(document: Document, selection: Range) -> Option<usize> {
    match offset_of(document.bytes(), selection.start) {
        Some(offset) => first_from(
            0,
            document.references@.len() as int,
            symbol_on(document.references@, offset),
        ),
        None => None,
    }
}

/// The `\foo` reference under the cursor, if any, by its place in the list.
pub fn reference_target(document: &Document, selection: Range) -> (r: Option<usize>)
    requires
        document.wf(),
    ensures
        r == reference_selected(*document, selection),
        r is Some ==> r->0 < document.references@.len(),
{
    let offset = match document.line_index.offset_at(selection.start) {
        Some(offset) => offset,
        None => {
            return None;
        },
    };
    let symbols = &document.references;
    let ghost fits = symbol_on(symbols@, offset as int);
    let mut k: usize = 0;
    while k < symbols.len()
        invariant
            k <= symbols@.len(),
            fits == symbol_on(symbols@, offset as int),
            first_from(0, symbols@.len() as int, fits) == first_from(
                k as int,
                symbols@.len() as int,
                fits,
            ),
            symbols@ == document.references@,
            reference_selected(*document, selection) == first_from(0, symbols@.len() as int, fits),
        decreases symbols.len() - k,
    {
        if symbols[k].span.contains(offset) {
            return Some(k);
        }
        k = k + 1;
    }
    None
}

/// Which definitions are of a name.
pub open spec fn defines(definitions: Seq<DefinitionView>, name: Seq<char>) -> spec_fn(int) -> bool {
    |k: int| definitions[k].name == name
}

/// Which definitions have an offset on their left-hand side.
pub open spec fn lhs_on(definitions: Seq<DefinitionView>, offset: int) -> spec_fn(int) -> bool {
    |k: int| definitions[k].lhs_region.has(offset)
}

/// The definition of a name, where there is one and no more.
pub open spec fn definition_of(document: Document, name: Seq<char>) -> Option<DefinitionView> {
    let all = definitions_of(document);
    match first_from(0, all.len() as int, defines(all, name)) {
        Some(k) => if first_from(k + 1, all.len() as int, defines(all, name)) is None {
            Some(all[k as int])
        } else {
            None
        },
        None => None,
    }
}

/// The place from `from` on where a definition of a name stands.
fn next_definition(all: &Vec<Definition>, name: &str, from: usize) -> (r: Option<usize>)
    requires
        from <= all@.len(),
    ensures
        r == first_from(
            from as int,
            all@.len() as int,
            defines(definition_views(all@), name@),
        ),
        r matches Some(k) ==> k < all.len(),
{
    let ghost views = definition_views(all@);
    let ghost fits = defines(views, name@);
    let mut k: usize = from;
    while k < all.len()
        invariant
            k <= all@.len(),
            views == definition_views(all@),
            fits == defines(views, name@),
            first_from(from as int, views.len() as int, fits) == first_from(
                k as int,
                views.len() as int,
                fits,
            ),
        decreases all.len() - k,
    {
        assert(views[k as int] == all@[k as int]@);
        if same(all[k].name.as_str(), name) {
            return Some(k);
        }
        k = k + 1;
    }
    None
}

/// The definition named `name`, if a single top-level one exists.
pub fn find_definition(document: &Document, name: &str) -> (r: Option<Definition>)
    requires
        document.wf(),
    ensures
        match r {
            Some(found) => definition_of(*document, name@) == Some(found@),
            None => definition_of(*document, name@) is None,
        },
{
    let mut all = definitions(document);
    match next_definition(&all, name, 0) {
        Some(k) => {
            assert(definition_views(all@)[k as int] == all@[k as int]@);
            match next_definition(&all, name, k + 1) {
                Some(_) => None,
                None => Some(all.remove(k)),
            }
        },
        None => None,
    }
}

/// Which references are to a name.
pub open spec fn refers(symbols: Seq<Symbol>, name: Seq<char>) -> spec_fn(int) -> bool {
    |k: int| symbols[k].name@ == name
}

/// The references to a name, by their place in the list.
pub open spec fn references_to(document: Document, name: Seq<char>) -> Seq<usize> {
    kept(document.references@.len() as int, refers(document.references@, name))
}

/// Every `\name` reference in the document, by its place in the list.
pub fn reference_spans(document: &Document, name: &str) -> (r: Vec<usize>)
    ensures
        r@ == references_to(*document, name@),
        forall|k: int| 0 <= k < r@.len() ==> (#[trigger] r@[k]) < document.references@.len(),
{
    let symbols = &document.references;
    let ghost fits = refers(symbols@, name@);
    let mut out: Vec<usize> = Vec::new();
    let mut k: usize = 0;
    while k < symbols.len()
        invariant
            k <= symbols@.len(),
            fits == refers(symbols@, name@),
            out@ == kept(k as int, fits),
        decreases symbols.len() - k,
    {
        if same(symbols[k].name.as_str(), name) {
            out.push(k);
        }
        k = k + 1;
    }
    proof {
        lemma_kept(k as int, fits);
    }
    out
}

/// The definition a selection names, through its left-hand side or a reference to it. A definition
/// that nothing refers to is not named by its left-hand side.
pub open spec fn definition_selected(document: Document, selection: Range) -> Option<
    DefinitionView,
> {
    let all = definitions_of(document);
    match offset_of(document.bytes(), selection.start) {
        None => None,
        Some(offset) => match first_from(0, all.len() as int, lhs_on(all, offset)) {
            Some(k) => if references_to(document, all[k as int].name).len() > 0 {
                Some(all[k as int])
            } else {
                None
            },
            None => match reference_selected(document, selection) {
                Some(k) => definition_of(document, document.references@[k as int].name@),
                None => None,
            },
        },
    }
}

/// The definition the cursor names, whether through its left-hand side or a reference to it.
pub fn named_definition(document: &Document, selection: Range) -> (r: Option<Definition>)
    requires
        document.wf(),
    ensures
        match r {
            Some(found) => definition_selected(*document, selection) == Some(found@),
            None => definition_selected(*document, selection) is None,
        },
{
    let offset = match document.line_index.offset_at(selection.start) {
        Some(offset) => offset,
        None => {
            return None;
        },
    };
    let mut all = definitions(document);
    let ghost views = definition_views(all@);
    let ghost fits = lhs_on(views, offset as int);
    let mut k: usize = 0;
    while k < all.len() && !all[k].lhs_region.contains(offset)
        invariant
            k <= all@.len(),
            views == definition_views(all@),
            views.len() == all@.len(),
            fits == lhs_on(views, offset as int),
            first_from(0, views.len() as int, fits) == first_from(
                k as int,
                views.len() as int,
                fits,
            ),
        decreases all.len() - k,
    {
        assert(views[k as int] == all@[k as int]@);
        k = k + 1;
    }
    if k < all.len() {
        assert(views[k as int] == all@[k as int]@);
        let found = all.remove(k);
        // An unused definition has nothing to be inlined into.
        if reference_spans(document, found.name.as_str()).len() > 0 {
            return Some(found);
        }
        return None;
    }
    match reference_target(document, selection) {
        Some(k) => find_definition(document, document.references[k].name.as_str()),
        None => None,
    }
}

/// Inline every reference to the definition the cursor names and delete the definition.
pub struct InlineAll;

/// Inline just the `\foo` reference under the cursor, leaving the definition.
pub struct InlineHere;

/// The edits that inline a definition at the first `n` of the listed references; none where one of
/// them cannot be inlined.
pub open spec fn inlined_at(document: Document, def: DefinitionView, at: Seq<usize>, n: int) -> Option<
    Seq<EditView>,
>
    decreases n,
{
    if n <= 0 {
        Some(Seq::empty())
    } else {
        match (
            inlined_at(document, def, at, n - 1),
            inlined(document, def, document.references@[at[n - 1] as int].span),
        ) {
            (Some(before), Some(edits)) => Some(before + edits),
            _ => None,
        }
    }
}

/// Nothing more can be inlined once one reference could not be.
proof fn lemma_inlined_none(document: Document, def: DefinitionView, at: Seq<usize>, k: int, n: int)
    requires
        k <= n,
        inlined_at(document, def, at, k) is None,
    ensures
        inlined_at(document, def, at, n) is None,
    decreases n - k,
{
    if k < n {
        lemma_inlined_none(document, def, at, k, n - 1);
    }
}

impl CodeAction for InlineAll {
    open spec fn title() -> Seq<char> {
        "Inline all"@
    }

    open spec fn kind() -> ActionKind {
        ActionKind::RefactorInline
    }

    open spec fn applies(document: Document, selection: Range) -> bool {
        definition_selected(document, selection) is Some
    }

    open spec fn outcome(document: Document, selection: Range) -> Option<ResolvedView> {
        match definition_selected(document, selection) {
            None => None,
            Some(def) => {
                let at = references_to(document, def.name);
                match inlined_at(document, def, at, at.len() as int) {
                    None => None,
                    Some(edits) => Some(
                        ResolvedView {
                            edits: edits.push(
                                EditView {
                                    range: range_between(document.bytes(), def.delete),
                                    new_text: Seq::empty(),
                                },
                            ),
                            command: None,
                        },
                    ),
                }
            },
        }
    }

    fn offer(document: &Document, selection: Range) -> (r: Option<Offer>) {
        match named_definition(document, selection) {
            Some(_) => Some(
                Offer { title: "Inline all".to_string(), kind: ActionKind::RefactorInline },
            ),
            None => None,
        }
    }

    fn resolve(document: &Document, selection: Range) -> (r: Option<Resolved>) {
        let def = match named_definition(document, selection) {
            Some(def) => def,
            None => {
                return None;
            },
        };
        let at = reference_spans(document, def.name.as_str());
        let mut edits: Vec<TextEdit> = Vec::new();
        let mut k: usize = 0;
        assert(edit_views(edits@) =~= Seq::empty());
        while k < at.len()
            invariant
                document.wf(),
                k <= at@.len(),
                at@ == references_to(*document, def@.name),
                forall|k: int|
                    0 <= k < at@.len() ==> (#[trigger] at@[k]) < document.references@.len(),
                definition_selected(*document, selection) == Some(def@),
                inlined_at(*document, def@, at@, k as int) == Some(edit_views(edits@)),
            decreases at.len() - k,
        {
            // Refuse the whole action if any reference can't be inlined, rather than delete the
            // definition and leave a reference dangling.
            match inline_at(document, &def, document.references[at[k]].span) {
                Some(more) => {
                    let ghost old_edits = edits@;
                    let ghost new_edits = more@;
                    let mut more = more;
                    edits.append(&mut more);
                    assert(edit_views(edits@) =~= edit_views(old_edits) + edit_views(new_edits));
                },
                None => {
                    proof {
                        lemma_inlined_none(*document, def@, at@, k + 1, at@.len() as int);
                    }
                    return None;
                },
            }
            k = k + 1;
        }
        let ghost inlined = edit_views(edits@);
        let edit = TextEdit {
            range: document.line_index.range_of(def.delete),
            new_text: String::new(),
        };
        edits.push(edit);
        assert(edit_views(edits@) =~= inlined.push(edit@));
        Some(Resolved { edits, command: None })
    }
}

impl CodeAction for InlineHere {
    open spec fn title() -> Seq<char> {
        "Inline here"@
    }

    open spec fn kind() -> ActionKind {
        ActionKind::RefactorInline
    }

    open spec fn applies(document: Document, selection: Range) -> bool {
        match reference_selected(document, selection) {
            Some(k) => definition_of(document, document.references@[k as int].name@) is Some,
            None => false,
        }
    }

    open spec fn outcome(document: Document, selection: Range) -> Option<ResolvedView> {
        match reference_selected(document, selection) {
            None => None,
            Some(k) => match definition_of(document, document.references@[k as int].name@) {
                None => None,
                Some(def) => match inlined(document, def, document.references@[k as int].span) {
                    Some(edits) => Some(ResolvedView { edits, command: None }),
                    None => None,
                },
            },
        }
    }

    fn offer(document: &Document, selection: Range) -> (r: Option<Offer>) {
        match reference_target(document, selection) {
            Some(k) => match find_definition(document, document.references[k].name.as_str()) {
                Some(_) => Some(
                    Offer { title: "Inline here".to_string(), kind: ActionKind::RefactorInline },
                ),
                None => None,
            },
            None => None,
        }
    }

    fn resolve(document: &Document, selection: Range) -> (r: Option<Resolved>) {
        match reference_target(document, selection) {
            Some(k) => match find_definition(document, document.references[k].name.as_str()) {
                Some(def) => match inline_at(document, &def, document.references[k].span) {
                    Some(edits) => Some(Resolved { edits, command: None }),
                    None => None,
                },
                None => None,
            },
            None => None,
        }
    }
}

/// Whether no reference of a document ends before it starts.
pub open spec fn references_forward(document: Document) -> bool {
    forall|k: int|
        0 <= k < document.references@.len() ==> (#[trigger] document.references@[k]).span.start
            <= document.references@[k].span.end
}

proof fn lemma_inlined_at(document: Document, def: DefinitionView, at: Seq<usize>, n: int)
    requires
        references_forward(document),
        n <= at.len(),
        forall|k: int| 0 <= k < at.len() ==> (#[trigger] at[k]) < document.references@.len(),
    ensures
        inlined_at(document, def, at, n) is Some,
    decreases n,
{
    if n > 0 {
        lemma_inlined_at(document, def, at, n - 1);
        assert(at[n - 1] < document.references@.len());
    }
}

/// Inlining that is offered can be done.
pub proof fn law_offered_inlining_can_be_done(document: Document, selection: Range)
    requires
        references_forward(document),
    ensures
        InlineAll::applies(document, selection) ==> InlineAll::outcome(document, selection) is Some,
        InlineHere::applies(document, selection) ==> InlineHere::outcome(
            document,
            selection,
        ) is Some,
{
    let references = document.references@;
    assert(references.len() == document.references.len());
    if definition_selected(document, selection) is Some {
        let def = definition_selected(document, selection)->0;
        let at = references_to(document, def.name);
        lemma_kept(references.len() as int, refers(references, def.name));
        lemma_inlined_at(document, def, at, at.len() as int);
    }
    match offset_of(document.bytes(), selection.start) {
        Some(offset) => {
            lemma_first_from(0, references.len() as int, symbol_on(references, offset));
        },
        None => {},
    }
}

} // verus!
