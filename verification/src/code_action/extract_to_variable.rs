//! The "extract to variable" refactoring: selected music becomes a definition of its own, and a
//! reference to it takes its place.
use vstd::prelude::*;
use vstd::string::{StrSliceExecFns, StringExecFns};
use vstd::utf8::*;
use crate::code_action::inline_repeats::blanks;
use crate::code_action::inline_variable::{
    events_overlapping, find_last_pitch, last_pitch, overlapping,
};
use crate::code_action::note_state::{leading_note, note_leading, octave_edit, octave_fix};
use crate::code_action::{
    ActionKind, ClientCommand, CodeAction, Offer, Resolved, ResolvedView, resolves,
};
use crate::document::Document;
use crate::finding::{first_from, kept, last_below, lemma_kept};
use crate::line_struct::{
    Span, line_start, offset_of, position_of, range_between, start_of_line, within,
};
use crate::notes::{Duration, Event, Pitch, default_duration, in_order, overlaps};
use crate::protocol::{EditView, Range, TextEdit, edit_views};
use crate::syntax::{
    Node, SyntaxTree, children_of, lemma_smallest_from, nested, sibling_before, smallest_from,
};
use crate::text::{
    chars_of, cut, cut_of, replace_range, replaced, same, trim_range, trimmed_range,
};

verus! {

/// Whether the listed events stick out of `[start, end)` on either side.
pub open spec fn sticks_out(events: Seq<Event>, at: Seq<usize>, start: int, end: int) -> bool {
    at.len() > 0 && (events[at[0] as int].span.start < start || events[at.last() as int].span.end
        > end)
}

/// Whether every event that shares a byte with `[start, end)` lies inside it.
pub open spec fn whole_events(events: Seq<Event>, start: int, end: int) -> bool {
    forall|k: int|
        0 <= k < events.len() && overlaps(#[trigger] events[k], start, end) ==> start
            <= events[k].span.start && events[k].span.end <= end
}

/// Where neither the first nor the last of the events in `[start, end)` sticks out of it, none does.
pub proof fn lemma_none_sticks_out(events: Seq<Event>, span: Span)
    requires
        in_order(events),
        events.len() <= usize::MAX,
        !sticks_out(
            events,
            kept(events.len() as int, overlapping(events, span)),
            span.start as int,
            span.end as int,
        ),
    ensures
        whole_events(events, span.start as int, span.end as int),
{
    let fits = overlapping(events, span);
    let at = kept(events.len() as int, fits);
    lemma_kept(events.len() as int, fits);
    assert forall|k: int|
        0 <= k < events.len() && overlaps(
            #[trigger] events[k],
            span.start as int,
            span.end as int,
        ) implies span.start <= events[k].span.start && events[k].span.end <= span.end by {
        assert(fits(k));
        let m = choose|m: int| 0 <= m < at.len() && at[m] == k as usize;
        let first = at[0] as int;
        let last = at[at.len() - 1] as int;
        assert(first <= k && k <= last);
        assert(events[first].span.start <= events[k].span.start);
        assert(events[k].span.end <= events[last].span.end);
    }
}

/// Whether a selection cuts through its first or last event.
pub fn cuts_boundary(events: &Vec<Event>, selected: &Vec<usize>, start: usize, end: usize) -> (r:
    bool)
    requires
        forall|k: int| 0 <= k < selected@.len() ==> (#[trigger] selected@[k]) < events@.len(),
    ensures
        r == sticks_out(events@, selected@, start as int, end as int),
{
    selected.len() > 0 && (events[selected[0]].span.start < start
        || events[selected[selected.len() - 1]].span.end > end)
}

/// Which of a row of nodes are named and lie across a boundary of `[start, end)`.
pub open spec fn straddling(nodes: Seq<Node>, row: Seq<usize>, start: int, end: int) -> spec_fn(
    int,
) -> bool {
    |k: int|
        {
            let node = nodes[row[k] as int];
            node.named && node.start < end && node.end > start && !(node.start >= start && node.end
                <= end)
        }
}

/// Which of a row of nodes are named and lie within `[start, end)`.
pub open spec fn enclosed(nodes: Seq<Node>, row: Seq<usize>, start: int, end: int) -> spec_fn(
    int,
) -> bool {
    |k: int|
        {
            let node = nodes[row[k] as int];
            node.named && node.start >= start && node.end <= end
        }
}

/// Whether the music `[start, end)` of a container needs braces once it stands alone; none where it
/// cannot be taken out: the selection swallows a brace, or slices through a node.
pub open spec fn braces_needed(nodes: Seq<Node>, container: int, start: int, end: int) -> Option<
    bool,
> {
    let node = nodes[container];
    let row = children_of(nodes, container);
    let n = row.len() as int;
    if node.start == start && node.end == end {
        if node.kind@ == "expression_block"@ {
            Some(false)
        } else if node.named && node.kind@ != "punctuation"@ && node.kind@ != "comment"@
            && container > 0 && nodes[node.parent as int].kind@ == "expression_block"@ {
            Some(node.kind@ != "escaped_word"@)
        } else {
            None
        }
    } else if node.kind@ != "expression_block"@ || n < 2 {
        None
    } else if start < nodes[row[0] as int].end || end > nodes[row[n - 1] as int].start {
        None
    } else if first_from(0, n, straddling(nodes, row, start, end)) is Some {
        None
    } else {
        match first_from(0, n, enclosed(nodes, row, start, end)) {
            Some(k) => Some(nodes[row[k as int] as int].kind@ != "escaped_word"@),
            None => Some(true),
        }
    }
}

/// Whether the selected music needs wrapping in `{ }`; `None` if it is not extractable.
pub fn needs_braces(tree: &SyntaxTree, container: usize, start_byte: usize, end_byte: usize) -> (r:
    Option<bool>)
    requires
        tree.wf(),
        container < tree.nodes@.len(),
    ensures
        r == braces_needed(tree.nodes@, container as int, start_byte as int, end_byte as int),
{
    let place = tree.span(container);
    if place.start == start_byte && place.end == end_byte {
        // The selection exactly matches a single node.
        if tree.is(container, "expression_block") {
            return Some(false);
        }
        if !tree.nodes[container].named || tree.is(container, "punctuation") || tree.is(
            container,
            "comment",
        ) {
            return None;
        }
        return match tree.parent(container) {
            Some(parent) => if tree.is(parent, "expression_block") {
                // A `\command` already forms a complete music expression on its own; a bare note
                // or chord needs wrapping.
                Some(!tree.is(container, "escaped_word"))
            } else {
                None
            },
            None => None,
        };
    }
    // The selection is a sub-range within a block.
    let row = tree.children(container);
    if !tree.is(container, "expression_block") || row.len() < 2 {
        return None;
    }
    if start_byte < tree.nodes[row[0]].end || end_byte > tree.nodes[row[row.len() - 1]].start {
        return None;
    }
    let ghost nodes = tree.nodes@;
    let ghost n = row@.len() as int;
    let ghost partial = straddling(nodes, row@, start_byte as int, end_byte as int);
    let ghost fits = enclosed(nodes, row@, start_byte as int, end_byte as int);
    let mut k: usize = 0;
    while k < row.len()
        invariant
            k <= row@.len(),
            n == row@.len(),
            nodes == tree.nodes@,
            row@ == children_of(nodes, container as int),
            forall|k: int| 0 <= k < row@.len() ==> (#[trigger] row@[k]) < nodes.len(),
            partial == straddling(nodes, row@, start_byte as int, end_byte as int),
            first_from(0, n, partial) == first_from(k as int, n, partial),
            container < nodes.len(),
            !(nodes[container as int].start == start_byte && nodes[container as int].end
                == end_byte),
        decreases row.len() - k,
    {
        let node = &tree.nodes[row[k]];
        if node.named && node.start < end_byte && node.end > start_byte && !(node.start
            >= start_byte && node.end <= end_byte) {
            return None;
        }
        k = k + 1;
    }
    let mut j: usize = 0;
    while j < row.len()
        invariant
            j <= row@.len(),
            n == row@.len(),
            nodes == tree.nodes@,
            forall|k: int| 0 <= k < row@.len() ==> (#[trigger] row@[k]) < nodes.len(),
            fits == enclosed(nodes, row@, start_byte as int, end_byte as int),
            first_from(0, n, fits) == first_from(j as int, n, fits),
        ensures
            j <= row@.len(),
            j < row@.len() ==> first_from(0, n, fits) == Some(j),
            j == row@.len() ==> first_from(0, n, fits) is None,
        decreases row.len() - j,
    {
        let node = &tree.nodes[row[j]];
        if node.named && node.start >= start_byte && node.end <= end_byte {
            break;
        }
        j = j + 1;
    }
    // A selection beginning with `\command` is taken as that command and its arguments, which
    // needs no braces.
    if j < row.len() {
        Some(!tree.is(row[j], "escaped_word"))
    } else {
        Some(true)
    }
}

/// A selection that can be extracted.
#[derive(Debug)]
pub struct Validated {
    pub container: usize,
    pub braces: bool,
    pub actual_start: usize,
    pub actual_end: usize,
    /// The selected events, by their place in the list.
    pub selected: Vec<usize>,
}

/// What a [`Validated`] selection holds, but for its events.
#[derive(Clone, Copy, PartialEq, Eq, Structural)]
pub struct Extractable {
    pub container: usize,
    pub braces: bool,
    pub start: usize,
    pub end: usize,
}

/// Which of a row of nodes are named, no comment, and share a byte with `[start, end)`.
pub open spec fn music_in(nodes: Seq<Node>, row: Seq<usize>, start: int, end: int) -> spec_fn(
    int,
) -> bool {
    |k: int|
        {
            let node = nodes[row[k] as int];
            node.named && node.kind@ != "comment"@ && node.start < end && node.end > start
        }
}

/// The smallest node around `[from, to)`, and whether the music there needs braces once it stands
/// alone. None where it lies in an error, or cannot be taken out.
pub open spec fn place_of(nodes: Seq<Node>, from: int, to: int) -> Option<(usize, bool)> {
    let container = smallest_from(nodes, 0, from, to);
    if nodes[container].has_error {
        None
    } else {
        match braces_needed(nodes, container, from, to) {
            Some(braces) => Some((container as usize, braces)),
            None => None,
        }
    }
}

/// What a selection can extract: the smallest node around it, whether the music needs braces, and
/// the extent without the white space at its ends. Where the selection cannot be taken out with that
/// white space, it is looked at without. None where it selects nothing, lies in an error, slices
/// through something, or holds only comments.
pub open spec fn extractable(document: Document, selection: Range) -> Option<Extractable> {
    let nodes = document.nodes();
    match (
        offset_of(document.bytes(), selection.start),
        offset_of(document.bytes(), selection.end),
    ) {
        (Some(from), Some(to)) => {
            let (start, end) = trimmed_range(document.text@, from, to);
            let events = document.events();
            let span = Span { start: start as usize, end: end as usize };
            let selected = kept(events.len() as int, overlapping(events, span));
            let place = if place_of(nodes, from, to) is Some {
                place_of(nodes, from, to)
            } else {
                place_of(nodes, start, end)
            };
            match place {
                Some((container, braces)) => {
                    let row = children_of(nodes, container as int);
                    if from >= to || start >= end || sticks_out(events, selected, start, end) || (
                    nodes[container as int].kind@ == "expression_block"@ && first_from(
                        0,
                        row.len() as int,
                        music_in(nodes, row, start, end),
                    ) is None) {
                        None
                    } else {
                        Some(
                            Extractable {
                                container,
                                braces,
                                start: start as usize,
                                end: end as usize,
                            },
                        )
                    }
                },
                None => None,
            }
        },
        _ => None,
    }
}

/// The events an extraction selects.
pub open spec fn selected_events(document: Document, found: Extractable) -> Seq<usize> {
    kept(
        document.events().len() as int,
        overlapping(document.events(), Span { start: found.start, end: found.end }),
    )
}

fn has_music(tree: &SyntaxTree, container: usize, start: usize, end: usize) -> (r: bool)
    requires
        tree.wf(),
        container < tree.nodes@.len(),
    ensures
        ({
            let row = children_of(tree.nodes@, container as int);
            r == (first_from(
                0,
                row.len() as int,
                music_in(tree.nodes@, row, start as int, end as int),
            ) is Some)
        }),
{
    let row = tree.children(container);
    let ghost nodes = tree.nodes@;
    let ghost n = row@.len() as int;
    let ghost fits = music_in(nodes, row@, start as int, end as int);
    let mut k: usize = 0;
    while k < row.len()
        invariant
            k <= row@.len(),
            n == row@.len(),
            nodes == tree.nodes@,
            forall|k: int| 0 <= k < row@.len() ==> (#[trigger] row@[k]) < nodes.len(),
            fits == music_in(nodes, row@, start as int, end as int),
            first_from(0, n, fits) == first_from(k as int, n, fits),
            row@ == children_of(nodes, container as int),
        decreases row.len() - k,
    {
        let node = &tree.nodes[row[k]];
        if node.named && !same(node.kind.as_str(), "comment") && node.start < end && node.end
            > start {
            return true;
        }
        k = k + 1;
    }
    false
}

/// Looks for the place of `[from, to)`: rejects one that slices through a single symbol or a block,
/// or that swallows a brace.
fn find_place(tree: &SyntaxTree, from: usize, to: usize) -> (r: Option<(usize, bool)>)
    requires
        tree.wf(),
        from <= to,
    ensures
        r == place_of(tree.nodes@, from as int, to as int),
        r matches Some((container, _)) ==> container < tree.nodes@.len(),
{
    let container = match tree.descendant_for_byte_range(from, to) {
        Some(node) => node,
        None => {
            return None;
        },
    };
    if tree.nodes[container].has_error {
        return None;
    }
    match needs_braces(tree, container, from, to) {
        Some(braces) => Some((container, braces)),
        None => None,
    }
}

/// Decides whether a selection can be extracted, and what exactly.
pub fn validate(document: &Document, selection: Range) -> (r: Option<Validated>)
    requires
        document.wf(),
    ensures
        match r {
            Some(found) => {
                &&& extractable(*document, selection) == Some(
                    Extractable {
                        container: found.container,
                        braces: found.braces,
                        start: found.actual_start,
                        end: found.actual_end,
                    },
                )
                &&& found.selected@ == selected_events(
                    *document,
                    extractable(*document, selection)->0,
                )
                &&& found.container < document.nodes().len()
                &&& forall|k: int|
                    0 <= k < found.selected@.len() ==> (#[trigger] found.selected@[k])
                        < document.events().len()
                &&& whole_events(document.events(), found.actual_start as int, found.actual_end as int)
            },
            None => extractable(*document, selection) is None,
        },
{
    let text = document.text.as_str();
    let start_byte = match document.line_index.offset_at(selection.start) {
        Some(offset) => offset,
        None => {
            return None;
        },
    };
    let end_byte = match document.line_index.offset_at(selection.end) {
        Some(offset) => offset,
        None => {
            return None;
        },
    };
    if start_byte >= end_byte {
        return None;
    }
    let (actual_start, actual_end) = trim_range(text, start_byte, end_byte);
    if actual_start >= actual_end {
        return None;
    }
    // White space around the music may be selected with it.
    let place = match find_place(&document.tree, start_byte, end_byte) {
        Some(place) => Some(place),
        None => find_place(&document.tree, actual_start, actual_end),
    };
    let (container, braces) = match place {
        Some(place) => place,
        None => {
            return None;
        },
    };
    let selected = events_overlapping(&document.notes.events, Span::new(actual_start, actual_end));
    // Reject a selection that cuts through a note, chord or rest.
    if cuts_boundary(&document.notes.events, &selected, actual_start, actual_end) {
        return None;
    }
    proof {
        assert(document.events().len() == document.notes.events.len());
        lemma_none_sticks_out(document.events(), Span { start: actual_start, end: actual_end });
    }
    // Reject a selection that contains only comments and white space.
    if document.tree.is(container, "expression_block") && !has_music(
        &document.tree,
        container,
        actual_start,
        actual_end,
    ) {
        return None;
    }
    Some(Validated { container, braces, actual_start, actual_end, selected })
}

/// An entry mode that a definition can restate.
#[derive(Debug, Clone, Copy, PartialEq, Eq, Structural)]
pub enum Mode {
    Lyrics,
    Chords,
    Figures,
    Drums,
    Markup,
}

impl Mode {
    pub open spec fn word(self) -> Seq<char> {
        match self {
            Mode::Lyrics => "\\lyricmode"@,
            Mode::Chords => "\\chordmode"@,
            Mode::Figures => "\\figuremode"@,
            Mode::Drums => "\\drummode"@,
            Mode::Markup => "\\markup"@,
        }
    }

    /// The command that restates the mode.
    pub fn command(self) -> (r: &'static str)
        ensures
            r@ == self.word(),
    {
        match self {
            Mode::Lyrics => "\\lyricmode",
            Mode::Chords => "\\chordmode",
            Mode::Figures => "\\figuremode",
            Mode::Drums => "\\drummode",
            Mode::Markup => "\\markup",
        }
    }
}

/// What a mode command says of the block behind it.
#[derive(Debug, Clone, Copy, PartialEq, Eq, Structural)]
pub enum ModeEffect {
    /// The definition must restate this mode.
    Restate(Mode),
    /// Plain notes: nothing to restate.
    NoteMode,
}

/// What a command word says of the block behind it.
pub open spec fn mode_of(word: Seq<char>) -> Option<ModeEffect> {
    if word == "\\lyricmode"@ || word == "\\lyrics"@ {
        Some(ModeEffect::Restate(Mode::Lyrics))
    } else if word == "\\chordmode"@ || word == "\\chords"@ {
        Some(ModeEffect::Restate(Mode::Chords))
    } else if word == "\\figuremode"@ || word == "\\figures"@ {
        Some(ModeEffect::Restate(Mode::Figures))
    } else if word == "\\drummode"@ || word == "\\drums"@ {
        Some(ModeEffect::Restate(Mode::Drums))
    } else if word == "\\markup"@ {
        Some(ModeEffect::Restate(Mode::Markup))
    } else if word == "\\notemode"@ || word == "\\notes"@ {
        Some(ModeEffect::NoteMode)
    } else {
        None
    }
}

pub fn mode_command(word: &str) -> (r: Option<ModeEffect>)
    ensures
        r == mode_of(word@),
{
    if same(word, "\\lyricmode") || same(word, "\\lyrics") {
        Some(ModeEffect::Restate(Mode::Lyrics))
    } else if same(word, "\\chordmode") || same(word, "\\chords") {
        Some(ModeEffect::Restate(Mode::Chords))
    } else if same(word, "\\figuremode") || same(word, "\\figures") {
        Some(ModeEffect::Restate(Mode::Figures))
    } else if same(word, "\\drummode") || same(word, "\\drums") {
        Some(ModeEffect::Restate(Mode::Drums))
    } else if same(word, "\\markup") {
        Some(ModeEffect::Restate(Mode::Markup))
    } else if same(word, "\\notemode") || same(word, "\\notes") {
        Some(ModeEffect::NoteMode)
    } else {
        None
    }
}

/// The nearest block around node `i`, not counting itself.
pub open spec fn block_above(nodes: Seq<Node>, i: int) -> Option<usize>
    decreases i,
{
    if 0 < i && nodes[i].parent < i {
        if nodes[nodes[i].parent as int].kind@ == "expression_block"@ {
            Some(nodes[i].parent)
        } else {
            block_above(nodes, nodes[i].parent as int)
        }
    } else {
        None
    }
}

/// The nearest block around a node.
pub fn enclosing_block(tree: &SyntaxTree, node: usize) -> (r: Option<usize>)
    requires
        tree.wf(),
        node < tree.nodes@.len(),
    ensures
        r == block_above(tree.nodes@, node as int),
        r is Some ==> r->0 < node,
    decreases node,
{
    match tree.parent(node) {
        Some(parent) => if tree.is(parent, "expression_block") {
            Some(parent)
        } else {
            enclosing_block(tree, parent)
        },
        None => None,
    }
}

/// What the command just before a block says of it, if it says anything.
pub open spec fn effect_before(nodes: Seq<Node>, src: Seq<char>, block: int) -> Option<ModeEffect> {
    match sibling_before(nodes, block) {
        Some(c) => if nodes[c as int].kind@ == "escaped_word"@ {
            mode_of(cut_of(src, nodes[c as int].start as int, nodes[c as int].end as int))
        } else {
            None
        },
        None => None,
    }
}

/// The mode that a block is read in: what the nearest command before it or a block around it says.
pub open spec fn mode_around(nodes: Seq<Node>, src: Seq<char>, block: int) -> Option<Mode>
    decreases block,
{
    match effect_before(nodes, src, block) {
        Some(ModeEffect::Restate(mode)) => Some(mode),
        Some(ModeEffect::NoteMode) => None,
        None => match block_above(nodes, block) {
            Some(outer) => if outer < block {
                mode_around(nodes, src, outer as int)
            } else {
                None
            },
            None => None,
        },
    }
}

/// The mode that bare events in a node are read in.
pub open spec fn mode_at(nodes: Seq<Node>, src: Seq<char>, node: int) -> Option<Mode> {
    if nodes[node].kind@ == "expression_block"@ {
        mode_around(nodes, src, node)
    } else {
        match block_above(nodes, node) {
            Some(block) => mode_around(nodes, src, block as int),
            None => None,
        }
    }
}

/// The mode a block is read in.
fn mode_of_block(tree: &SyntaxTree, block: usize, src: &str) -> (r: Option<Mode>)
    requires
        tree.wf(),
        block < tree.nodes@.len(),
    ensures
        r == mode_around(tree.nodes@, src@, block as int),
    decreases block,
{
    let effect = match tree.prev_sibling(block) {
        Some(command) => if tree.is(command, "escaped_word") {
            mode_command(cut(src, tree.nodes[command].start, tree.nodes[command].end))
        } else {
            None
        },
        None => None,
    };
    match effect {
        Some(ModeEffect::Restate(mode)) => Some(mode),
        Some(ModeEffect::NoteMode) => None,
        None => match enclosing_block(tree, block) {
            Some(outer) => mode_of_block(tree, outer, src),
            None => None,
        },
    }
}

/// The mode that bare events in a node are read in, if a definition must restate it.
pub fn enclosing_mode(tree: &SyntaxTree, node: usize, src: &str) -> (r: Option<Mode>)
    requires
        tree.wf(),
        node < tree.nodes@.len(),
    ensures
        r == mode_at(tree.nodes@, src@, node as int),
{
    if tree.is(node, "expression_block") {
        mode_of_block(tree, node, src)
    } else {
        match enclosing_block(tree, node) {
            Some(block) => mode_of_block(tree, block, src),
            None => None,
        }
    }
}

/// How extracted music is wrapped.
#[derive(Debug, Clone, Copy, PartialEq, Eq, Structural)]
pub enum Wrapping {
    Verbatim,
    Braces,
    Mode(Mode),
}

/// How the music of a container is wrapped.
pub open spec fn wrapping_of(nodes: Seq<Node>, src: Seq<char>, container: int, braces: bool) -> Wrapping {
    if !braces {
        Wrapping::Verbatim
    } else {
        match mode_at(nodes, src, container) {
            Some(mode) => Wrapping::Mode(mode),
            None => Wrapping::Braces,
        }
    }
}

/// How the music of a container is wrapped: bare events in a mode block are parsed in that mode, so
/// the definition must restate it.
pub fn wrapping_for(tree: &SyntaxTree, container: usize, src: &str, needs_braces: bool) -> (r:
    Wrapping)
    requires
        tree.wf(),
        container < tree.nodes@.len(),
    ensures
        r == wrapping_of(tree.nodes@, src@, container as int, needs_braces),
{
    if !needs_braces {
        return Wrapping::Verbatim;
    }
    match enclosing_mode(tree, container, src) {
        Some(mode) => Wrapping::Mode(mode),
        None => Wrapping::Braces,
    }
}

/// Which characters of a text are line breaks.
pub open spec fn breaks(text: Seq<char>) -> spec_fn(int) -> bool {
    |k: int| text[k] == '\n'
}

/// Music in braces: on one line, or on lines of its own where it spans several, with the first line
/// indented like the second.
pub open spec fn in_braces(content: Seq<char>) -> Seq<char> {
    match first_from(0, content.len() as int, breaks(content)) {
        Some(k) => {
            let first = content.subrange(0, k as int);
            let rest = content.subrange(k + 1, content.len() as int);
            "{\n"@ + rest.subrange(0, blanks(rest, 0) as int) + first + "\n"@ + rest + "\n}"@
        },
        None => "{ "@ + content + " }"@,
    }
}

/// Wraps music in braces.
pub fn braced(content: &str) -> (r: String)
    ensures
        r@ == in_braces(content@),
{
    let chars = chars_of(content);
    let ghost fits = breaks(content@);
    let mut k: usize = 0;
    while k < chars.len() && chars[k] != '\n'
        invariant
            chars@ == content@,
            k <= chars@.len(),
            fits == breaks(content@),
            first_from(0, content@.len() as int, fits) == first_from(
                k as int,
                content@.len() as int,
                fits,
            ),
        decreases chars.len() - k,
    {
        k = k + 1;
    }
    if k < chars.len() {
        let first = content.substring_char(0, k);
        let rest = content.substring_char(k + 1, chars.len());
        let indent = crate::code_action::inline_repeats::horizontal_ws(rest);
        let mut out = "{\n".to_string();
        out.append(rest.substring_char(0, indent));
        out.append(first);
        out.append("\n");
        out.append(rest);
        out.append("\n}");
        out
    } else {
        let mut out = "{ ".to_string();
        out.append(content);
        out.append(" }");
        out
    }
}

/// Music as its wrapping says.
pub open spec fn wrapped(content: Seq<char>, wrapping: Wrapping) -> Seq<char> {
    match wrapping {
        Wrapping::Verbatim => content,
        Wrapping::Braces => in_braces(content),
        Wrapping::Mode(mode) => mode.word() + " "@ + in_braces(content),
    }
}

pub fn format_music_text(content: &str, wrapping: Wrapping) -> (r: String)
    ensures
        r@ == wrapped(content@, wrapping),
{
    match wrapping {
        Wrapping::Verbatim => content.to_string(),
        Wrapping::Braces => braced(content),
        Wrapping::Mode(mode) => {
            let mut out = mode.command().to_string();
            out.append(" ");
            out.append(braced(content).as_str());
            out
        },
    }
}

/// The node at the top level of the file that node `i` is or sits in.
pub open spec fn top_level(nodes: Seq<Node>, i: int) -> Option<usize>
    decreases i,
{
    if 0 < i && nodes[i].parent < i {
        if nodes[nodes[i].parent as int].kind@ == "lilypond_program"@ {
            Some(i as usize)
        } else {
            top_level(nodes, nodes[i].parent as int)
        }
    } else {
        None
    }
}

/// Where the statement that ends with a top-level node starts: at its assignment, or behind the
/// block before it.
pub open spec fn statement_from(nodes: Seq<Node>, i: int) -> int
    decreases i,
{
    match sibling_before(nodes, i) {
        None => i,
        Some(prev) => if prev >= i || crate::command::reader::block_kind(
            nodes[prev as int].kind@,
        ) {
            i
        } else if nodes[prev as int].kind@ == "assignment_lhs"@ {
            prev as int
        } else {
            statement_from(nodes, prev as int)
        },
    }
}

/// Where the line starts on which the statement around a node starts.
pub open spec fn statement_line(document: Document, i: int) -> Option<int> {
    match top_level(document.nodes(), i) {
        Some(top) => {
            let byte = document.nodes()[statement_from(document.nodes(), top as int)].start as int;
            Some(line_start(document.bytes(), within(document.bytes(), byte)))
        },
        None => None,
    }
}

fn find_top(tree: &SyntaxTree, node: usize) -> (r: Option<usize>)
    requires
        tree.wf(),
        node < tree.nodes@.len(),
    ensures
        r == top_level(tree.nodes@, node as int),
        r is Some ==> r->0 <= node,
    decreases node,
{
    match tree.parent(node) {
        Some(parent) => if tree.is(parent, "lilypond_program") {
            Some(node)
        } else {
            find_top(tree, parent)
        },
        None => None,
    }
}

fn find_statement(tree: &SyntaxTree, node: usize) -> (r: usize)
    requires
        tree.wf(),
        node < tree.nodes@.len(),
    ensures
        r == statement_from(tree.nodes@, node as int),
        r <= node,
    decreases node,
{
    match tree.prev_sibling(node) {
        None => node,
        Some(prev) => if crate::command::reader::is_block(tree.nodes[prev].kind.as_str()) {
            node
        } else if tree.is(prev, "assignment_lhs") {
            prev
        } else {
            find_statement(tree, prev)
        },
    }
}

/// The start of the line on which the top-level statement around `node` starts.
pub fn statement_start_byte(document: &Document, node: usize) -> (r: Option<usize>)
    requires
        document.wf(),
        node < document.nodes().len(),
    ensures
        match r {
            Some(byte) => statement_line(*document, node as int) == Some(byte as int),
            None => statement_line(*document, node as int) is None,
        },
{
    match find_top(&document.tree, node) {
        Some(top) => {
            let statement = find_statement(&document.tree, top);
            Some(
                start_of_line(document.text.as_str(), document.tree.nodes[statement].start),
            )
        },
        None => None,
    }
}

/// Which events start at or behind an offset.
pub open spec fn starts_after(events: Seq<Event>, offset: int) -> spec_fn(int) -> bool {
    |k: int| events[k].span.start >= offset
}

/// Which events end at or before an offset.
pub open spec fn ends_before(events: Seq<Event>, offset: int) -> spec_fn(int) -> bool {
    |k: int| events[k].span.end <= offset
}

/// The edits that keep the note behind a selection meaning the same once the selection is a
/// reference: it inherits from the music before the selection.
pub open spec fn next_note_edits(document: Document, at: Seq<usize>, start: int, end: int) -> Seq<
    EditView,
> {
    let events = document.events();
    let n = events.len() as int;
    match first_from(0, n, starts_after(events, end)) {
        None => Seq::empty(),
        Some(k) => {
            let next = events[k as int];
            let before = match last_below(n, ends_before(events, start)) {
                Some(j) => events[j as int].duration@,
                None => default_duration(),
            };
            let duration = if !next.duration_written && before != next.duration@ {
                seq![
                    EditView {
                        range: range_between(
                            document.bytes(),
                            Span { start: next.value_end, end: next.value_end },
                        ),
                        new_text: next.duration@,
                    },
                ]
            } else {
                Seq::empty()
            };
            duration + next_octave_edit(document, at, next)
        },
    }
}

/// The pitch a note in relative mode resolves against.
pub open spec fn reference_of(event: Event) -> Option<Pitch> {
    match event.relative {
        Some(reference) => Some(reference.pitch),
        None => None,
    }
}

/// The octave fix of the note behind a selection: only where the selection is relative and the note
/// resolved against its last pitch.
pub open spec fn next_octave_edit(document: Document, at: Seq<usize>, next: Event) -> Seq<
    EditView,
> {
    let events = document.events();
    if at.len() > 0 && events[at[0] as int].relative is Some && reference_of(next) == last_pitch(
        events,
        at,
    ) {
        match note_leading(next) {
            Some((span, pitch)) => match octave_edit(
                document,
                span,
                pitch,
                events[at[0] as int].relative->0.pitch,
            ) {
                Some(edit) => seq![edit],
                None => Seq::empty(),
            },
            None => Seq::empty(),
        }
    } else {
        Seq::empty()
    }
}

/// The edits for the note that follows a selection.
pub fn following_note_edits(
    document: &Document,
    selected: &Vec<usize>,
    actual_start: usize,
    actual_end: usize,
) -> (r: Vec<TextEdit>)
    requires
        document.wf(),
        forall|k: int|
            0 <= k < selected@.len() ==> (#[trigger] selected@[k]) < document.events().len(),
    ensures
        edit_views(r@) == next_note_edits(
            *document,
            selected@,
            actual_start as int,
            actual_end as int,
        ),
{
    let events = &document.notes.events;
    let ghost n = events@.len() as int;
    let mut edits: Vec<TextEdit> = Vec::new();
    assert(edit_views(edits@) =~= Seq::empty());
    let ghost after_fits = starts_after(events@, actual_end as int);
    let mut k: usize = 0;
    while k < events.len() && events[k].span.start < actual_end
        invariant
            k <= events@.len(),
            n == events@.len(),
            after_fits == starts_after(events@, actual_end as int),
            first_from(0, n, after_fits) == first_from(k as int, n, after_fits),
        decreases events.len() - k,
    {
        k = k + 1;
    }
    if k == events.len() {
        return edits;
    }
    let next = &events[k];
    let ghost before_fits = ends_before(events@, actual_start as int);
    let mut j: usize = events.len();
    while j > 0 && events[j - 1].span.end > actual_start
        invariant
            j <= events@.len(),
            n == events@.len(),
            before_fits == ends_before(events@, actual_start as int),
            last_below(n, before_fits) == last_below(j as int, before_fits),
        decreases j,
    {
        j = j - 1;
    }
    let before = if j > 0 {
        events[j - 1].duration.copy()
    } else {
        Duration::standard()
    };
    if !next.duration_written && !before.same(&next.duration) {
        let edit = TextEdit {
            range: document.line_index.range_of(Span::new(next.value_end, next.value_end)),
            new_text: next.duration.to_text(),
        };
        edits.push(edit);
        assert(edit_views(edits@) =~= seq![edit@]);
    }
    let ghost duration = edit_views(edits@);
    match octave_of_next(document, selected, next) {
        Some(edit) => {
            edits.push(edit);
            assert(edit_views(edits@) =~= duration + seq![edit@]);
        },
        None => {
            assert(edit_views(edits@) =~= duration + Seq::<EditView>::empty());
        },
    }
    edits
}

fn octave_of_next(document: &Document, selected: &Vec<usize>, next: &Event) -> (r: Option<TextEdit>)
    requires
        document.wf(),
        forall|k: int|
            0 <= k < selected@.len() ==> (#[trigger] selected@[k]) < document.events().len(),
    ensures
        next_octave_edit(*document, selected@, *next) == match r {
            Some(edit) => seq![edit@],
            None => Seq::empty(),
        },
{
    let events = &document.notes.events;
    if selected.len() == 0 {
        return None;
    }
    let outer = match &events[selected[0]].relative {
        Some(reference) => reference.pitch,
        None => {
            return None;
        },
    };
    let reference = match &next.relative {
        Some(reference) => Some(reference.pitch),
        None => None,
    };
    let last = find_last_pitch(events, selected);
    let follows = match (reference, last) {
        (Some(a), Some(b)) => a == b,
        (None, None) => true,
        _ => false,
    };
    if !follows {
        return None;
    }
    match leading_note(next) {
        Some((span, pitch)) => octave_fix(document, span, pitch, outer),
        None => None,
    }
}

/// The music that is extracted: what was selected, with the first event's duration made explicit.
pub open spec fn extracted_content(document: Document, found: Extractable) -> Seq<char> {
    let events = document.events();
    let at = selected_events(document, found);
    let raw = cut_of(document.text@, found.start as int, found.end as int);
    if at.len() > 0 && !events[at[0] as int].duration_written {
        let place = events[at[0] as int].value_end - found.start;
        replaced(raw, place, place, events[at[0] as int].duration@)
    } else {
        raw
    }
}

/// How the music that is extracted is wrapped.
pub open spec fn extracted_wrapping(document: Document, found: Extractable) -> Wrapping {
    wrapping_of(document.nodes(), document.text@, found.container as int, found.braces)
}

/// The definition's music: what was selected, wrapped as its place demands, and in a `\relative` of
/// its own where it was read in one.
pub open spec fn extracted_music(document: Document, found: Extractable) -> Seq<char> {
    let events = document.events();
    let at = selected_events(document, found);
    let music = wrapped(
        extracted_content(document, found),
        extracted_wrapping(document, found),
    );
    if at.len() > 0 && events[at[0] as int].relative is Some {
        "\\relative "@ + events[at[0] as int].relative->0.text@ + " "@ + music
    } else {
        music
    }
}

/// The edits of an extraction: the definition before the statement, the reference in place of the
/// music, and the fixes to the note behind it. None where the music sits in no statement.
pub open spec fn extracted(document: Document, found: Extractable) -> Option<Seq<EditView>> {
    match statement_line(document, found.container as int) {
        None => None,
        Some(byte) => {
            let place = position_of(document.bytes(), byte);
            Some(
                seq![
                    EditView {
                        range: Range { start: place, end: place },
                        new_text: "music = "@ + extracted_music(document, found) + "\n\n"@,
                    },
                    EditView {
                        range: range_between(
                            document.bytes(),
                            Span { start: found.start, end: found.end },
                        ),
                        new_text: "\\music"@,
                    },
                ] + next_note_edits(
                    document,
                    selected_events(document, found),
                    found.start as int,
                    found.end as int,
                ),
            )
        },
    }
}

fn music_of(document: &Document, found: &Validated) -> (r: String)
    requires
        document.wf(),
        found.container < document.nodes().len(),
        found.selected@ == selected_events(
            *document,
            Extractable {
                container: found.container,
                braces: found.braces,
                start: found.actual_start,
                end: found.actual_end,
            },
        ),
        forall|k: int|
            0 <= k < found.selected@.len() ==> (#[trigger] found.selected@[k])
                < document.events().len(),
    ensures
        r@ == extracted_music(
            *document,
            Extractable {
                container: found.container,
                braces: found.braces,
                start: found.actual_start,
                end: found.actual_end,
            },
        ),
{
    let text = document.text.as_str();
    let events = &document.notes.events;
    let wrapping = wrapping_for(&document.tree, found.container, text, found.braces);
    let raw = cut(text, found.actual_start, found.actual_end);
    let mut content = raw.to_string();
    // Once the first event is detached from its surroundings, an omitted duration would inherit
    // from wherever the variable is defined. The duration goes on the note value, before any
    // post-events.
    if found.selected.len() > 0 && !events[found.selected[0]].duration_written {
        let first = &events[found.selected[0]];
        if first.value_end >= found.actual_start {
            let place = first.value_end - found.actual_start;
            content = replace_range(raw, place, place, first.duration.to_text().as_str());
        }
    }
    let music = format_music_text(content.as_str(), wrapping);
    if found.selected.len() > 0 {
        // The reference in force before the selection makes the first note resolve exactly as it
        // did.
        match &events[found.selected[0]].relative {
            Some(reference) => {
                let mut out = "\\relative ".to_string();
                out.append(reference.text.as_str());
                out.append(" ");
                out.append(music.as_str());
                return out;
            },
            None => {},
        }
    }
    music
}

/// Make the selected music a variable.
pub struct ExtractToVariable;

impl CodeAction for ExtractToVariable {
    open spec fn title() -> Seq<char> {
        "Extract to variable"@
    }

    open spec fn kind() -> ActionKind {
        ActionKind::RefactorExtract
    }

    open spec fn applies(document: Document, selection: Range) -> bool {
        extractable(document, selection) is Some
    }

    open spec fn outcome(document: Document, selection: Range) -> Option<ResolvedView> {
        match extractable(document, selection) {
            None => None,
            Some(found) => match extracted(document, found) {
                None => None,
                Some(edits) => Some(
                    ResolvedView {
                        edits,
                        command: Some(("Rename"@, "editor.action.rename"@)),
                    },
                ),
            },
        }
    }

    fn offer(document: &Document, selection: Range) -> (r: Option<Offer>) {
        match validate(document, selection) {
            Some(_) => Some(
                Offer {
                    title: "Extract to variable".to_string(),
                    kind: ActionKind::RefactorExtract,
                },
            ),
            None => None,
        }
    }

    fn resolve(document: &Document, selection: Range) -> (r: Option<Resolved>) {
        let found = match validate(document, selection) {
            Some(found) => found,
            None => {
                return None;
            },
        };
        let byte = match statement_start_byte(document, found.container) {
            Some(byte) => byte,
            None => {
                return None;
            },
        };
        let music = music_of(document, &found);
        let mut definition = "music = ".to_string();
        definition.append(music.as_str());
        definition.append("\n\n");
        proof {
            crate::line_struct::lemma_line_start_range(
                document.bytes(),
                within(
                    document.bytes(),
                    document.nodes()[statement_from(
                        document.nodes(),
                        top_level(document.nodes(), found.container as int)->0 as int,
                    )].start as int,
                ),
            );
        }
        let place = document.line_index.position_at(byte);
        let insert = TextEdit { range: Range::new(place, place), new_text: definition };
        let replace = TextEdit {
            range: document.line_index.range_of(Span::new(found.actual_start, found.actual_end)),
            new_text: "\\music".to_string(),
        };
        let mut edits: Vec<TextEdit> = Vec::new();
        edits.push(insert);
        edits.push(replace);
        assert(edit_views(edits@) =~= seq![insert@, replace@]);
        let mut following = following_note_edits(
            document,
            &found.selected,
            found.actual_start,
            found.actual_end,
        );
        let ghost two = edits@;
        let ghost more = following@;
        edits.append(&mut following);
        assert(edit_views(edits@) =~= edit_views(two) + edit_views(more));
        // The editor is asked to rename the fresh variable, so that it can be given a meaningful
        // name straight away.
        let command = ClientCommand {
            title: "Rename".to_string(),
            command: "editor.action.rename".to_string(),
        };
        Some(Resolved { edits, command: Some(command) })
    }
}

/// In the tree of a program, every node but the root sits in a statement.
proof fn lemma_top_level(nodes: Seq<Node>, i: int)
    requires
        nested(nodes),
        0 < i < nodes.len(),
        nodes[0].kind@ == "lilypond_program"@,
    ensures
        top_level(nodes, i) is Some,
    decreases i,
{
    let parent = nodes[i].parent as int;
    if parent > 0 && nodes[parent].kind@ != "lilypond_program"@ {
        lemma_top_level(nodes, parent);
    }
}

/// What can be taken out of a program lies below its root.
proof fn lemma_below_root(nodes: Seq<Node>, from: int, to: int)
    requires
        nested(nodes),
        nodes.len() <= usize::MAX,
        nodes[0].kind@ == "lilypond_program"@,
        place_of(nodes, from, to) is Some,
    ensures
        ({
            let (container, _) = place_of(nodes, from, to)->0;
            0 < container < nodes.len()
        }),
{
    lemma_smallest_from(nodes, 0, from, to);
    reveal_strlit("expression_block");
    reveal_strlit("lilypond_program");
    assert("expression_block"@[0] == 'e' && "lilypond_program"@[0] == 'l');
}

/// An extraction that is offered can be made: in a program, what can be extracted always sits in a
/// statement to put the definition before.
pub proof fn law_an_offered_extraction_can_be_made(document: Document, selection: Range)
    requires
        document.wf(),
        document.nodes()[0].kind@ == "lilypond_program"@,
        ExtractToVariable::applies(document, selection),
    ensures
        ExtractToVariable::outcome(document, selection) is Some,
{
    let nodes = document.nodes();
    document.tree.lemma_wf();
    assert(nodes.len() == document.tree.nodes.len());
    let from = offset_of(document.bytes(), selection.start)->0;
    let to = offset_of(document.bytes(), selection.end)->0;
    let (start, end) = trimmed_range(document.text@, from, to);
    if place_of(nodes, from, to) is Some {
        lemma_below_root(nodes, from, to);
    } else {
        lemma_below_root(nodes, start, end);
    }
    lemma_top_level(nodes, extractable(document, selection)->0.container as int);
}

} // verus!
