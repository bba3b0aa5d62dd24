//! Finding the calls of a document.
use vstd::prelude::*;
use std::sync::Arc;
use crate::command::behaviour::{selected, without_ly};
use crate::command::calls::{Commands, in_order};
use crate::command::parse::{CallView, parse, parsed};
use crate::command::reader::{Run, RunView, block_kind, is_block};
use crate::command::{ArgView, Behaviour, CommandCall, lemma_arg_views};
use crate::note_names::{NoteLanguage, NoteName};
use crate::syntax::{Node, SyntaxTree, children_of, lemma_children, lemma_few_children, nested};
use crate::vocabulary::{Scope, language_among};

verus! {

/// What each of a run of calls says.
pub open spec fn call_views(calls: Seq<CommandCall>) -> Seq<CallView> {
    calls.map_values(|call: CommandCall| call@)
}

/// Where among `n` nodes to go on behind the one at `k`, whose call reaches up to `next`.
pub open spec fn going_on(k: int, next: int, n: int) -> int {
    if next <= k {
        k + 1
    } else if next < n {
        next
    } else {
        n
    }
}

/// What calls are read from: the nodes, the source, and what names mean.
pub struct Ground {
    pub nodes: Seq<Node>,
    pub src: Seq<char>,
    pub scope: Scope,
}

/// The calls found so far, and the words for notes in force behind them.
pub struct Found {
    pub calls: Seq<CallView>,
    pub notes: Seq<NoteName>,
}

/// The words for notes behind a call: those of the language it selects, if it selects one.
pub open spec fn notes_behind(call: CallView, scope: Scope, notes: Seq<NoteName>) -> Seq<NoteName> {
    if call.cmd.behaviour is Language && call.args.len() > 0 {
        match call.args[0] {
            ArgView::String { text, .. } => match language_among(
                scope.note_names@,
                without_ly(text),
            ) {
                Some(language) => language.notes@,
                None => notes,
            },
            _ => notes,
        }
    } else {
        notes
    }
}

/// Whether node `c` lies in node `i`.
pub open spec fn lies_in(nodes: Seq<Node>, i: int, c: int) -> bool {
    0 <= i < c < nodes[c].past <= nodes[i].past
}

/// Whether calls are looked for inside a node: in a block, and in a stretch that could not be
/// parsed.
pub open spec fn looked_into(node: Node) -> bool {
    block_kind(node.kind@) || node.error
}

/// The calls among the children of node `i` from the `k`-th on, and inside those children, in source
/// order: one at each command, then what the nodes that it takes hold, and on behind them. A
/// language that is selected holds from there on, wherever that is.
pub open spec fn calls_along(ground: Ground, i: int, k: int, notes: Seq<NoteName>) -> Found
    decreases ground.nodes[i].past - i, children_of(ground.nodes, i).len() - k, 1int,
{
    let row = children_of(ground.nodes, i);
    if k >= row.len() {
        Found { calls: Seq::empty(), notes }
    } else {
        let run = RunView { nodes: ground.nodes, children: row, src: ground.src, notes };
        let (own, behind, on) = match parsed(run, k, ground.scope) {
            Some((call, next)) => (
                seq![call],
                notes_behind(call, ground.scope, notes),
                going_on(k, next, row.len() as int),
            ),
            None => (Seq::empty(), notes, k + 1),
        };
        let inside = calls_inside(ground, i, k, on, behind);
        let rest = calls_along(ground, i, on, inside.notes);
        Found { calls: own + inside.calls + rest.calls, notes: rest.notes }
    }
}

/// The calls inside the children of node `i` from the `from`-th up to the `to`-th.
pub open spec fn calls_inside(ground: Ground, i: int, from: int, to: int, notes: Seq<NoteName>) -> Found
    decreases ground.nodes[i].past - i, children_of(ground.nodes, i).len() - from, 0int,
{
    let row = children_of(ground.nodes, i);
    if from >= to || from >= row.len() {
        Found { calls: Seq::empty(), notes }
    } else {
        let c = row[from] as int;
        let own = if looked_into(ground.nodes[c]) && lies_in(ground.nodes, i, c) {
            calls_along(ground, c, 0, notes)
        } else {
            Found { calls: Seq::empty(), notes }
        };
        let rest = calls_inside(ground, i, from + 1, to, own.notes);
        Found { calls: own.calls + rest.calls, notes: rest.notes }
    }
}

/// A call put behind those that start no later.
pub open spec fn put_call(ordered: Seq<CallView>, call: CallView) -> Seq<CallView>
    decreases ordered.len(),
{
    if ordered.len() == 0 || ordered.last().keyword.start <= call.keyword.start {
        ordered.push(call)
    } else {
        put_call(ordered.drop_last(), call).push(ordered.last())
    }
}

/// Calls in the order their keywords come in; those that start together as they came.
pub open spec fn earliest_first(calls: Seq<CallView>) -> Seq<CallView>
    decreases calls.len(),
{
    if calls.len() == 0 {
        calls
    } else {
        put_call(earliest_first(calls.drop_last()), calls.last())
    }
}

/// The calls of a document, in source order, read with `notes` for words until a language is
/// selected.
pub open spec fn calls_of(nodes: Seq<Node>, src: Seq<char>, notes: Seq<NoteName>, scope: Scope) -> Seq<
    CallView,
> {
    earliest_first(calls_along(Ground { nodes, src, scope }, 0, 0, notes).calls)
}

proof fn lemma_put_call(ordered: Seq<CallView>, call: CallView, k: int)
    requires
        0 <= k <= ordered.len(),
        k == 0 || ordered[k - 1].keyword.start <= call.keyword.start,
        forall|j: int| k <= j < ordered.len() ==> (#[trigger] ordered[j]).keyword.start
            > call.keyword.start,
    ensures
        put_call(ordered, call) == ordered.insert(k, call),
    decreases ordered.len() - k,
{
    if k < ordered.len() {
        assert(ordered[ordered.len() - 1] == ordered.last());
        let shorter = ordered.drop_last();
        assert forall|j: int| k <= j < shorter.len() implies (#[trigger] shorter[j]).keyword.start
            > call.keyword.start by {
            assert(shorter[j] == ordered[j]);
        }
        lemma_put_call(shorter, call, k);
        assert(shorter.insert(k, call).push(ordered.last()) =~= ordered.insert(k, call));
    } else {
        assert(ordered.insert(k, call) =~= ordered.push(call));
    }
}

/// Puts a call in its place among others.
fn place_call(calls: &mut Vec<CommandCall>, call: CommandCall)
    requires
        in_order(old(calls)@),
    ensures
        in_order(final(calls)@),
        call_views(final(calls)@) == put_call(call_views(old(calls)@), call@),
{
    let ghost before = calls@;
    let mut k: usize = calls.len();
    while k > 0 && calls[k - 1].keyword.start > call.keyword.start
        invariant
            calls@ == before,
            k <= before.len(),
            forall|j: int| k <= j < before.len() ==> (#[trigger] before[j]).keyword.start
                > call.keyword.start,
        decreases k,
    {
        k = k - 1;
    }
    proof {
        let views = call_views(before);
        assert forall|j: int| k <= j < views.len() implies (#[trigger] views[j]).keyword.start
            > call.keyword.start by {
            assert(before[j].keyword.start > call.keyword.start);
        }
        lemma_put_call(views, call@, k as int);
        assert(call_views(before.insert(k as int, call)) =~= views.insert(k as int, call@));
    }
    calls.insert(k, call);
    assert forall|i: int, j: int| 0 <= i < j < calls@.len() implies (
    #[trigger] calls@[i]).keyword.start <= (#[trigger] calls@[j]).keyword.start by {
        let m = if i < k {
            i
        } else {
            i - 1
        };
        let n = if j < k {
            j
        } else {
            j - 1
        };
        if i != k && j != k {
            assert(before[m].keyword.start <= before[n].keyword.start);
        } else if j == k && i < k - 1 {
            assert(before[i].keyword.start <= before[k - 1].keyword.start);
        }
    }
}

/// The words for notes in force: those of the language selected last, or the given ones.
spec fn in_force(selected: Option<Arc<NoteLanguage>>, given: NoteLanguage) -> Seq<NoteName> {
    match selected {
        Some(language) => language.notes@,
        None => given.notes@,
    }
}

/// The language that a call leaves in force.
fn language_behind(call: &CommandCall, scope: &Scope, before: Option<Arc<NoteLanguage>>, Ghost(
    given,
): Ghost<NoteLanguage>) -> (r: Option<Arc<NoteLanguage>>)
    ensures
        in_force(r, given) == notes_behind(call@, *scope, in_force(before, given)),
{
    proof {
        lemma_arg_views(call.args@);
    }
    match &call.cmd.behaviour {
        Behaviour::Language { .. } => match selected(call, scope) {
            Some(language) => Some(language),
            None => before,
        },
        _ => before,
    }
}

/// Collects the calls among the children of node `i` and inside them, and gives the language in force
/// behind them.
fn collect_along(
    tree: &SyntaxTree,
    src: &str,
    given: &NoteLanguage,
    scope: &Scope,
    i: usize,
    before: Option<Arc<NoteLanguage>>,
    calls: &mut Vec<CommandCall>,
    Ghost(found): Ghost<Seq<CallView>>,
) -> (r: Option<Arc<NoteLanguage>>)
    requires
        tree.wf(),
        i < tree.nodes@.len(),
        2 * tree.nodes@.len() < i32::MAX,
        in_order(old(calls)@),
        call_views(old(calls)@) == earliest_first(found),
    ensures
        in_order(final(calls)@),
        ({
            let ground = Ground { nodes: tree.nodes@, src: src@, scope: *scope };
            let more = calls_along(ground, i as int, 0, in_force(before, *given));
            &&& call_views(final(calls)@) == earliest_first(found + more.calls)
            &&& in_force(r, *given) == more.notes
        }),
    decreases tree.nodes@[i as int].past - i,
{
    let ghost ground = Ground { nodes: tree.nodes@, src: src@, scope: *scope };
    let ghost all = calls_along(ground, i as int, 0, in_force(before, *given));
    let ghost mut seen = found;
    let row = tree.children(i);
    let n = row.len();
    proof {
        tree.lemma_wf();
        lemma_few_children(tree.nodes@, i as int);
        lemma_children(tree.nodes@, i as int);
    }
    let mut current = before;
    let mut k: usize = 0;
    while k < n
        invariant
            tree.wf(),
            nested(tree.nodes@),
            i < tree.nodes@.len(),
            2 * tree.nodes@.len() < i32::MAX,
            n == row@.len(),
            n < tree.nodes@.len(),
            row@ == children_of(tree.nodes@, i as int),
            forall|k: int| 0 <= k < row@.len() ==> i < (#[trigger] row@[k]) < tree.nodes@[i as int].past,
            ground == (Ground { nodes: tree.nodes@, src: src@, scope: *scope }),
            in_order(calls@),
            call_views(calls@) == earliest_first(seen),
            ({
                let rest = calls_along(ground, i as int, k as int, in_force(current, *given));
                &&& seen + rest.calls == found + all.calls
                &&& rest.notes == all.notes
            }),
        decreases n - k,
    {
        let ghost start = seen;
        let ghost notes = in_force(current, *given);
        let ghost rest = calls_along(ground, i as int, k as int, notes);
        assert forall|k: int| 0 <= k < row@.len() implies (#[trigger] row@[k]) < tree.nodes@.len() by {
            assert(row@[k] < tree.nodes@[i as int].past);
        }
        let read = {
            let language: &NoteLanguage = match &current {
                Some(language) => language,
                None => given,
            };
            parse(Run { tree, children: &row, src, language }, k, scope)
        };
        let on: usize = match read {
            Some((call, next)) => {
                current = language_behind(&call, scope, current, Ghost(*given));
                proof {
                    seen = start.push(call@);
                    assert(seen.drop_last() =~= start);
                }
                place_call(calls, call);
                if next <= k {
                    k + 1
                } else if next < n {
                    next
                } else {
                    n
                }
            },
            None => k + 1,
        };
        let ghost behind = in_force(current, *given);
        let ghost inside = calls_inside(ground, i as int, k as int, on as int, behind);
        let ghost own = seen;
        let mut m: usize = k;
        while m < on
            invariant
                tree.wf(),
                nested(tree.nodes@),
                i < tree.nodes@.len(),
                2 * tree.nodes@.len() < i32::MAX,
                n == row@.len(),
                k <= m <= on <= n,
                row@ == children_of(tree.nodes@, i as int),
                forall|k: int|
                    0 <= k < row@.len() ==> i < (#[trigger] row@[k]) < tree.nodes@[i as int].past,
                ground == (Ground { nodes: tree.nodes@, src: src@, scope: *scope }),
                in_order(calls@),
                call_views(calls@) == earliest_first(seen),
                ({
                    let more = calls_inside(
                        ground,
                        i as int,
                        m as int,
                        on as int,
                        in_force(current, *given),
                    );
                    &&& seen + more.calls == own + inside.calls
                    &&& more.notes == inside.notes
                }),
            decreases on - m,
        {
            let ghost reached = seen;
            let ghost notes = in_force(current, *given);
            let c = row[m];
            assert(i < row@[m as int] < tree.nodes@[i as int].past);
            assert(lies_in(tree.nodes@, i as int, c as int));
            let ghost more = calls_inside(ground, i as int, m as int, on as int, notes);
            let node = &tree.nodes[c];
            if is_block(node.kind.as_str()) || node.error {
                let ghost held = calls_along(ground, c as int, 0, notes);
                current = collect_along(tree, src, given, scope, c, current, calls, Ghost(seen));
                proof {
                    seen = reached + held.calls;
                    let after = calls_inside(ground, i as int, m + 1, on as int, held.notes);
                    assert(reached + (held.calls + after.calls) =~= seen + after.calls);
                }
            } else {
                proof {
                    let after = calls_inside(ground, i as int, m + 1, on as int, notes);
                    assert(Seq::<CallView>::empty() + after.calls =~= after.calls);
                }
            }
            m = m + 1;
        }
        proof {
            let last = calls_inside(ground, i as int, m as int, on as int, in_force(current, *given));
            assert(last.calls.len() == 0);
            assert(seen + last.calls =~= seen);
            let after = calls_along(ground, i as int, on as int, inside.notes);
            assert(seen + after.calls =~= start + rest.calls);
        }
        k = on;
    }
    assert(seen =~= found + all.calls);
    current
}

/// Every call in a document, in source order, `language` naming the notes until another is selected.
/// Text that could not be parsed is looked into as well: a call that is still being typed is one. The
/// nodes are few enough to count octave marks among them.
pub fn collect_calls(tree: &SyntaxTree, src: &str, language: &NoteLanguage, scope: &Scope) -> (r:
    Commands)
    requires
        tree.wf(),
        2 * tree.nodes@.len() < i32::MAX,
    ensures
        r.wf(),
        call_views(r.calls@) == calls_of(tree.nodes@, src@, language.notes@, *scope),
{
    let mut calls: Vec<CommandCall> = Vec::new();
    proof {
        tree.lemma_root();
        assert(call_views(calls@) =~= Seq::empty());
    }
    collect_along(tree, src, language, scope, 0, None, &mut calls, Ghost(Seq::empty()));
    proof {
        let ground = Ground { nodes: tree.nodes@, src: src@, scope: *scope };
        let all = calls_along(ground, 0, 0, language.notes@).calls;
        assert(Seq::<CallView>::empty() + all =~= all);
    }
    Commands::new(calls)
}

} // verus!
