//! Documents and the files around them: changes, the order in which files are met, and what is offered.
use vstd::prelude::*;
use vstd::utf8::*;
use crate::code_action::{Action, actions, applicable};
use crate::command::{Arg, CommandCall, arg_view, first_music, header_end};
use crate::command::calls::{body_holds, keyword_in};
use crate::document::{Change, Document, changed};
use crate::document::NoteAnalysis;
use crate::document_graph::{DocumentGraph, existing, refreshes};
use crate::finding::{first_from, kept, last_below, lemma_first_from, lemma_kept, lemma_last_below};
use crate::grammar::point_of;
use crate::laws::placing::{lemma_line_start, starts_line_of};
use crate::line_struct::Span;
use crate::line_struct::{line_starts_of, newlines_before};
use crate::protocol::Range;
use crate::queries::known_among;
use crate::scope::layer_ids;
use crate::syntax::{Node, children_of, first_reaching, lemma_reaching_child, nested, smallest_from};
use crate::text::{can_cut, lemma_cut_middle, piece, replaced};
use crate::vocabulary::Scope;
use crate::walk::{next_new, walked};

verus! {

/// A change without a range is the whole new text; one whose range lies behind the last line goes at
/// the end.
pub proof fn law_a_change_behind_the_text_goes_at_its_end(text: Seq<char>, change: Change)
    ensures
        change.range is None ==> changed(text, change) == change.text@,
        change.range is Some && change.range->0.start.line >= line_starts_of(
            encode_utf8(text),
            encode_utf8(text).len() as int,
        ).len() && change.range->0.end.line >= line_starts_of(
            encode_utf8(text),
            encode_utf8(text).len() as int,
        ).len() ==> changed(text, change) == text + change.text@,
{
    let none = Seq::<char>::empty();
    let n = encode_utf8(text).len() as int;
    assert(encode_utf8(none).len() == 0);
    assert(text =~= none + text + none);
    lemma_cut_middle(none, text, none);
    assert(text =~= text + none + none);
    lemma_cut_middle(text, none, none);
    assert(piece(text, 0, n) == text);
    assert(piece(text, n, n) == none);
    assert(can_cut(text, n, n));
    assert(replaced(text, n, n, change.text@) =~= text + change.text@);
}

/// What the parser is told of a place: the number of line breaks before it, and how many bytes behind
/// the start of its line it is.
pub proof fn law_a_point_counts_lines_and_bytes(bytes: Seq<u8>, at: int)
    requires
        0 <= at <= bytes.len() <= usize::MAX,
        newlines_before(bytes, at) <= usize::MAX,
    ensures
        point_of(bytes, at).row == newlines_before(bytes, at),
        starts_line_of(bytes, at - point_of(bytes, at).column, at),
{
    lemma_line_start(bytes, at);
}

proof fn lemma_next_in(
    order: Seq<Seq<char>>,
    rest: Seq<Seq<char>>,
    files: Seq<Seq<char>>,
    k: int,
)
    requires
        0 <= k < files.len(),
        !order.contains(files[k]),
        forall|j: int| k < j < files.len() ==> order.contains(#[trigger] files[j]),
    ensures
        next_new(order, rest + files) == Some((files[k], rest + files.subrange(0, k))),
    decreases files.len(),
{
    let stack = rest + files;
    assert(stack.last() == files.last());
    if k == files.len() - 1 {
        assert(stack.drop_last() =~= rest + files.subrange(0, k));
    } else {
        let front = files.drop_last();
        assert(order.contains(files[files.len() - 1]));
        assert(stack.drop_last() =~= rest + front);
        assert forall|j: int| k < j < front.len() implies order.contains(#[trigger] front[j]) by {
            assert(order.contains(files[j]));
        }
        lemma_next_in(order, rest, front, k);
        assert(front.subrange(0, k) =~= files.subrange(0, k));
    }
}

/// A walk starts with its root, and from a file that it just met it goes on with the last of those
/// that the file includes and that were not met before.
pub proof fn law_a_walk_goes_on_with_the_last_file_included(
    root: Seq<char>,
    edges: spec_fn(Seq<char>) -> Seq<Seq<char>>,
    n: nat,
    k: int,
)
    requires
        next_new(walked(root, edges, n).order, walked(root, edges, n).stack) is Some,
    ensures
        ({
            let met = walked(root, edges, n + 1).order;
            let files = edges(met.last());
            &&& n == 0 ==> met == seq![root]
            &&& met.len() == walked(root, edges, n).order.len() + 1
            &&& 0 <= k < files.len() && !met.contains(files[k]) && (forall|j: int|
                k < j < files.len() ==> met.contains(#[trigger] files[j])) ==> walked(
                root,
                edges,
                n + 2,
            ).order == met.push(files[k])
        }),
{
    let before = walked(root, edges, n);
    let (file, rest) = next_new(before.order, before.stack)->0;
    let now = walked(root, edges, n + 1);
    assert(now.order == before.order.push(file));
    assert(now.stack == rest + edges(file));
    assert(now.order.last() == file);
    if n == 0 {
        assert(before.stack.last() == root);
        assert(now.order =~= seq![root]);
    }
    let files = edges(file);
    if 0 <= k < files.len() && !now.order.contains(files[k]) && (forall|j: int|
        k < j < files.len() ==> now.order.contains(#[trigger] files[j])) {
        lemma_next_in(now.order, rest, files, k);
        assert(walked(root, edges, n + 2).order == now.order.push(files[k]));
    }
}

/// Every document that is known under one of some names is found, an open one before one read from
/// disk; names that nothing is known under are passed over.
pub proof fn law_every_known_document_is_found(
    graph: DocumentGraph,
    uris: Seq<Seq<char>>,
    n: int,
    k: int,
)
    requires
        0 <= k < n <= uris.len(),
    ensures
        graph.documents().contains_key(uris[k]) ==> known_among(graph, uris, n).contains(
            (uris[k], graph.documents()[uris[k]]),
        ),
        !graph.documents().contains_key(uris[k]) && graph.remembered().contains_key(uris[k])
            ==> known_among(graph, uris, n).contains(
            (uris[k], *graph.remembered()[uris[k]].document),
        ),
    decreases n,
{
    let before = known_among(graph, uris, n - 1);
    let all = known_among(graph, uris, n);
    if k < n - 1 {
        law_every_known_document_is_found(graph, uris, n - 1, k);
        assert forall|one: (Seq<char>, Document)| #[trigger] before.contains(one) implies
            all.contains(one) by {
            let i = choose|i: int| 0 <= i < before.len() && before[i] == one;
            assert(all[i] == one);
        }
    } else if graph.known_at(uris[k]) is Some {
        assert(all[before.len() as int] == all.last());
    }
}

proof fn lemma_applicable(document: Document, selection: Range, n: int, action: Action)
    requires
        0 <= n <= actions().len(),
    ensures
        applicable(document, selection, n).contains(action) <==> action.applies(document, selection)
            && actions().subrange(0, n).contains(action),
    decreases n,
{
    if n > 0 {
        lemma_applicable(document, selection, n - 1, action);
        let before = applicable(document, selection, n - 1);
        let all = applicable(document, selection, n);
        let front = actions().subrange(0, n - 1);
        let now = actions().subrange(0, n);
        let last = actions()[n - 1];
        assert(now =~= front.push(last));
        if front.contains(action) {
            let i = choose|i: int| 0 <= i < front.len() && front[i] == action;
            assert(now[i] == action);
        }
        if last == action {
            assert(now[n - 1] == action);
        }
        if before.contains(action) {
            let i = choose|i: int| 0 <= i < before.len() && before[i] == action;
            assert(all[i] == action);
        }
        if last == action && action.applies(document, selection) {
            assert(all[before.len() as int] == action);
        }
    }
}

/// Every action that applies to a selection is offered for it, and no other.
pub proof fn law_every_action_that_applies_is_offered(
    document: Document,
    selection: Range,
    action: Action,
)
    ensures
        applicable(document, selection, actions().len() as int).contains(action)
            <==> action.applies(document, selection),
        actions().no_duplicates(),
{
    let all = actions();
    assert(all.subrange(0, all.len() as int) =~= all);
    lemma_applicable(document, selection, all.len() as int, action);
    assert(all[0] == Action::ExtractToVariable);
    assert(all[1] == Action::InlineAll);
    assert(all[2] == Action::InlineHere);
    assert(all[3] == Action::MakeDurationsExplicit);
    assert(all[4] == Action::MakePitchesExplicit);
    assert(all[5] == Action::MakeBothExplicit);
    assert(all[6] == Action::InlineRepeats);
    assert(all.contains(action));
}

/// Of the places where an included file may be, the first that exists is taken.
pub proof fn law_the_first_place_that_exists_is_taken(exists: Seq<bool>, k: int)
    requires
        exists.len() <= usize::MAX,
    ensures
        0 <= k < exists.len() && exists[k] && (forall|j: int|
            0 <= j < k ==> !#[trigger] exists[j]) ==> first_from(
            0,
            exists.len() as int,
            existing(exists),
        ) == Some(k as usize),
        (forall|j: int| 0 <= j < exists.len() ==> !#[trigger] exists[j]) ==> first_from(
            0,
            exists.len() as int,
            existing(exists),
        ) is None,
{
    let n = exists.len() as int;
    let fits = existing(exists);
    lemma_first_from(0, n, fits);
    match first_from(0, n, fits) {
        Some(i) => {
            assert(fits(i as int));
            assert(exists[i as int]);
            if 0 <= k < i {
                assert(!fits(k));
            }
        },
        None => {
            if 0 <= k < n {
                assert(!fits(k));
            }
        },
    }
}

/// A document that is analysed once more in the same scope stays as it is.
pub proof fn law_refreshing_twice_is_refreshing_once(
    before: Document,
    once: Document,
    twice: Document,
    scope: Scope,
    notes: NoteAnalysis,
    more: NoteAnalysis,
)
    requires
        refreshes(before, once, scope, notes),
        refreshes(once, twice, scope, more),
    ensures
        twice == once,
        once.text@ == before.text@,
        before.analysed_in@ == layer_ids(scope.layers@) ==> once == before,
        before.analysed_in@ != layer_ids(scope.layers@) ==> once.notes == notes,
{
    assert(once.source().text == before.source().text);
}

/// The calls inside some text are those whose keyword starts there.
pub proof fn law_calls_within_start_within(calls: Seq<CommandCall>, start: int, end: int, k: int)
    requires
        0 <= k < calls.len() <= usize::MAX,
    ensures
        kept(calls.len() as int, keyword_in(calls, start, end)).contains(k as usize) <==> start
            <= calls[k].keyword.start < end,
{
    let fits = keyword_in(calls, start, end);
    let at = kept(calls.len() as int, fits);
    lemma_kept(calls.len() as int, fits);
    if at.contains(k as usize) {
        let i = choose|i: int| 0 <= i < at.len() && at[i] == k as usize;
        assert(fits(at[i] as int));
    }
    if start <= calls[k].keyword.start < end {
        assert(fits(k));
    }
}

/// Whether the music of a call, at `body`, holds a span.
pub open spec fn holds_span(call: CommandCall, body: Span, span: Span) -> bool {
    first_music(call.args@) == Some(body) && body.start <= span.start && span.end <= body.end
}

/// The call around a span is the last one with the span in its music.
pub proof fn law_the_call_around_is_the_last_that_holds(
    calls: Seq<CommandCall>,
    span: Span,
    c: int,
    body: Span,
)
    requires
        0 <= c < calls.len() <= usize::MAX,
        holds_span(calls[c], body, span),
        forall|j: int, other: Span|
            c < j < calls.len() ==> !#[trigger] holds_span(calls[j], other, span),
    ensures
        last_below(calls.len() as int, body_holds(calls, span)) == Some(c as usize),
{
    let fits = body_holds(calls, span);
    let n = calls.len() as int;
    lemma_last_below(n, fits);
    assert(fits(c));
    match last_below(n, fits) {
        Some(j) => {
            assert(fits(j as int));
            if j > c {
                let other = first_music(calls[j as int].args@)->0;
                assert(!holds_span(calls[j as int], other, span));
            } else if j < c {
                assert(!fits(c));
            }
        },
        None => {
            assert(!fits(c));
        },
    }
}

/// Whether the first music among some arguments is at `k`.
pub open spec fn first_music_at(args: Seq<Arg>, k: int) -> bool {
    &&& 0 <= k < args.len()
    &&& args[k] is Music
    &&& forall|j: int| 0 <= j < k ==> !((#[trigger] args[j]) is Music)
}

/// The body of a call is its first music. The header ends with the argument before it, or with the
/// keyword where there is none; without music it ends with the last argument.
pub proof fn law_a_header_ends_before_the_music(args: Seq<Arg>, end: usize, k: int)
    ensures
        first_music_at(args, k) ==> first_music(args) == Some(args[k]->Music_span),
        first_music_at(args, k) ==> header_end(args, end) == if k == 0 {
            end
        } else {
            arg_view(args[k - 1]).place().end
        },
        (forall|j: int| 0 <= j < args.len() ==> !((#[trigger] args[j]) is Music)) ==> first_music(
            args,
        ) is None && header_end(args, end) == if args.len() == 0 {
            end
        } else {
            arg_view(args[args.len() - 1]).place().end
        },
    decreases args.len(),
{
    if args.len() > 0 {
        let rest = args.drop_first();
        law_a_header_ends_before_the_music(rest, arg_view(args[0]).place().end, k - 1);
        if first_music_at(args, k) && k > 0 {
            assert(!(args[0] is Music));
            assert(rest[k - 1] == args[k]);
            assert forall|j: int| 0 <= j < k - 1 implies !((#[trigger] rest[j]) is Music) by {
                assert(!(args[j + 1] is Music));
            }
            if k > 1 {
                assert(rest[k - 2] == args[k - 1]);
            }
        }
        if forall|j: int| 0 <= j < args.len() ==> !((#[trigger] args[j]) is Music) {
            assert(!(args[0] is Music));
            assert forall|j: int| 0 <= j < rest.len() implies !((#[trigger] rest[j]) is Music) by {
                assert(!(args[j + 1] is Music));
            }
            if rest.len() > 0 {
                assert(rest[rest.len() - 1] == args[args.len() - 1]);
            }
        }
    }
}

/// Whether a node that holds something spans `[from, to)`.
pub open spec fn spans(node: Node, from: int, to: int) -> bool {
    node.start <= from < node.end && to <= node.end
}

proof fn lemma_first_reaching_at(nodes: Seq<Node>, row: Seq<usize>, from: int, to: int, k: int)
    requires
        0 <= k < row.len(),
        spans(nodes[row[k] as int], from, to),
        forall|j: int|
            0 <= j < k ==> (nodes[(#[trigger] row[j]) as int].end < to || nodes[row[j] as int].start
                < nodes[row[j] as int].end <= from),
    ensures
        first_reaching(nodes, row, from, to) == Some(row[k]),
    decreases k,
{
    if k > 0 {
        let rest = row.drop_first();
        assert(nodes[row[0] as int].end < to || nodes[row[0] as int].end <= from);
        assert(rest[k - 1] == row[k]);
        assert forall|j: int| 0 <= j < k - 1 implies (nodes[(#[trigger] rest[j]) as int].end < to
            || nodes[rest[j] as int].start < nodes[rest[j] as int].end <= from) by {
            assert(rest[j] == row[j + 1]);
        }
        lemma_first_reaching_at(nodes, rest, from, to, k - 1);
    }
}

proof fn lemma_none_spans(nodes: Seq<Node>, row: Seq<usize>, from: int, to: int)
    requires
        forall|j: int| 0 <= j < row.len() ==> nodes[(#[trigger] row[j]) as int].end < to,
    ensures
        first_reaching(nodes, row, from, to) is None,
    decreases row.len(),
{
    if row.len() > 0 {
        let rest = row.drop_first();
        assert(nodes[row[0] as int].end < to);
        assert forall|j: int| 0 <= j < rest.len() implies nodes[(
        #[trigger] rest[j]) as int].end < to by {
            assert(rest[j] == row[j + 1]);
        }
        lemma_none_spans(nodes, rest, from, to);
    }
}

/// The smallest node around a range is looked for in the part that spans the range, and is the node
/// itself where no part reaches that far.
pub proof fn law_the_smallest_node_is_in_the_part_that_spans_the_range(
    nodes: Seq<Node>,
    i: int,
    from: int,
    to: int,
    k: int,
)
    requires
        nested(nodes),
        0 <= i < nodes.len(),
    ensures
        ({
            let row = children_of(nodes, i);
            &&& 0 <= k < row.len() && spans(nodes[row[k] as int], from, to) && (forall|j: int|
                0 <= j < k ==> (nodes[(#[trigger] row[j]) as int].end < to || nodes[
                row[j] as int].start < nodes[row[j] as int].end <= from)) ==> smallest_from(
                nodes,
                i,
                from,
                to,
            ) == smallest_from(nodes, row[k] as int, from, to)
            &&& (forall|j: int|
                0 <= j < row.len() ==> nodes[(#[trigger] row[j]) as int].end < to)
                ==> smallest_from(nodes, i, from, to) == i
        }),
{
    let row = children_of(nodes, i);
    lemma_reaching_child(nodes, i, from, to);
    if 0 <= k < row.len() && spans(nodes[row[k] as int], from, to) && (forall|j: int|
        0 <= j < k ==> (nodes[(#[trigger] row[j]) as int].end < to || nodes[row[j] as int].start
            < nodes[row[j] as int].end <= from)) {
        lemma_first_reaching_at(nodes, row, from, to, k);
    }
    if forall|j: int| 0 <= j < row.len() ==> nodes[(#[trigger] row[j]) as int].end < to {
        lemma_none_spans(nodes, row, from, to);
    }
}

/// The smallest node around a range spans it, or is where the search started.
pub proof fn law_the_smallest_node_spans_the_range(nodes: Seq<Node>, i: int, from: int, to: int)
    requires
        nested(nodes),
        0 <= i < nodes.len(),
    ensures
        ({
            let found = smallest_from(nodes, i, from, to);
            found == i || (0 < found < nodes.len() && nodes[found].start <= from && to
                <= nodes[found].end)
        }),
    decreases nodes[i].past - i,
{
    lemma_reaching_child(nodes, i, from, to);
    match first_reaching(nodes, children_of(nodes, i), from, to) {
        Some(c) => if nodes[c as int].start <= from {
            lemma_reaches(nodes, children_of(nodes, i), from, to);
            law_the_smallest_node_spans_the_range(nodes, c as int, from, to);
        },
        None => {},
    }
}

proof fn lemma_reaches(nodes: Seq<Node>, row: Seq<usize>, from: int, to: int)
    ensures
        first_reaching(nodes, row, from, to) matches Some(c) ==> to <= nodes[c as int].end,
    decreases row.len(),
{
    if row.len() > 0 {
        lemma_reaches(nodes, row.drop_first(), from, to);
    }
}

} // verus!
