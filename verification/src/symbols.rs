//! The symbols of a source: what it defines, what it refers to and what it includes.
//!
//! Definitions come from two readers, because LilyPond has two ways of binding a name that `\foo`
//! can reach: the ordinary assignment `foo = …`, and the Scheme binding forms. Only top-level
//! assignments are definitions: one nested in a `\layout` or `\with` block is not.
use vstd::prelude::*;
use crate::assignment::{value_place, value_span};
use crate::command::definition::Binding;
use crate::command::reader::{fragment_of, string_fragment, strip_backslash, unescaped_word};
use crate::command::scheme::{self, BindingView, are_bindings, is_binding, scheme_bindings, source_of, text};
use crate::document::{Include, Symbol};
use crate::finding::first_from;
use crate::line_struct::Span;
use crate::syntax::{Node, SyntaxTree, children_of, parent_of, span_of};
use crate::text::same;

verus! {

/// What a [`Symbol`] says.
pub struct SymbolView {
    pub name: Seq<char>,
    pub span: Span,
}

impl View for Symbol {
    type V = SymbolView;

    open spec fn view(&self) -> SymbolView {
        SymbolView { name: self.name@, span: self.span }
    }
}

pub open spec fn symbol_views(symbols: Seq<Symbol>) -> Seq<SymbolView> {
    symbols.map_values(|symbol: Symbol| symbol@)
}

/// What an [`Include`] says.
pub struct IncludeView {
    pub path: Seq<char>,
    pub span: Span,
}

impl View for Include {
    type V = IncludeView;

    open spec fn view(&self) -> IncludeView {
        IncludeView { path: self.path@, span: self.span }
    }
}

pub open spec fn include_views(includes: Seq<Include>) -> Seq<IncludeView> {
    includes.map_values(|found: Include| found@)
}

/// Whether node `i` is the name of a top-level assignment.
pub open spec fn names_assignment(nodes: Seq<Node>, i: int) -> bool {
    &&& nodes[i].kind@ == "symbol"@
    &&& i > 0
    &&& nodes[nodes[i].parent as int].kind@ == "assignment_lhs"@
    &&& nodes[i].parent > 0
    &&& nodes[nodes[nodes[i].parent as int].parent as int].kind@ == "lilypond_program"@
}

/// Which of a row of nodes is node `i`.
pub open spec fn is_node(row: Seq<usize>, i: usize) -> spec_fn(int) -> bool {
    |k: int| row[k] == i
}

/// Where the value of the assignment that node `i` names is written.
pub open spec fn assigned_value(nodes: Seq<Node>, src: Seq<char>, i: int) -> Option<Span> {
    let lhs = nodes[i].parent;
    let row = children_of(nodes, nodes[lhs as int].parent as int);
    match first_from(0, row.len() as int, is_node(row, lhs)) {
        Some(k) => value_place(nodes, src, row, k as int),
        None => None,
    }
}

/// The top-level assignments among the first `n` nodes, in source order.
pub open spec fn assignments(nodes: Seq<Node>, src: Seq<char>, n: int) -> Seq<BindingView>
    decreases n,
{
    if n <= 0 {
        Seq::empty()
    } else if names_assignment(nodes, n - 1) {
        assignments(nodes, src, n - 1).push(
            BindingView {
                name: source_of(nodes, src, n - 1),
                span: span_of(nodes, n - 1),
                value: assigned_value(nodes, src, n - 1),
                function: None,
            },
        )
    } else {
        assignments(nodes, src, n - 1)
    }
}

/// Which of a row of nodes are named and come after node `i`.
pub open spec fn named_after(nodes: Seq<Node>, row: Seq<usize>, i: int) -> spec_fn(int) -> bool {
    |k: int| row[k] > i && nodes[row[k] as int].named
}

/// The named node side by side with node `i`, just after it.
pub open spec fn named_sibling_after(nodes: Seq<Node>, i: int) -> Option<usize> {
    match parent_of(nodes, i) {
        Some(parent) => {
            let row = children_of(nodes, parent as int);
            match first_from(0, row.len() as int, named_after(nodes, row, i)) {
                Some(k) => Some(row[k as int]),
                None => None,
            }
        },
        None => None,
    }
}

/// The file that the `\include` at node `i` names.
pub open spec fn included_at(nodes: Seq<Node>, src: Seq<char>, i: int) -> Option<IncludeView> {
    match named_sibling_after(nodes, i) {
        Some(string) => if nodes[string as int].kind@ == "string"@ {
            match fragment_of(nodes, src, string as int) {
                Some(path) => Some(IncludeView { path, span: span_of(nodes, string as int) }),
                None => None,
            }
        } else {
            None
        },
        None => None,
    }
}

/// Whether node `i` is a command word that says `word`.
pub open spec fn says(nodes: Seq<Node>, src: Seq<char>, i: int, word: Seq<char>) -> bool {
    nodes[i].kind@ == "escaped_word"@ && source_of(nodes, src, i) == word
}

/// The references among the first `n` nodes, in source order: every command word but `\include`.
pub open spec fn references(nodes: Seq<Node>, src: Seq<char>, n: int) -> Seq<SymbolView>
    decreases n,
{
    if n <= 0 {
        Seq::empty()
    } else if nodes[n - 1].kind@ == "escaped_word"@ && !says(nodes, src, n - 1, "\\include"@) {
        references(nodes, src, n - 1).push(
            SymbolView {
                name: unescaped_word(source_of(nodes, src, n - 1)),
                span: span_of(nodes, n - 1),
            },
        )
    } else {
        references(nodes, src, n - 1)
    }
}

/// The files that the first `n` nodes include, in source order.
pub open spec fn includes(nodes: Seq<Node>, src: Seq<char>, n: int) -> Seq<IncludeView>
    decreases n,
{
    if n <= 0 {
        Seq::empty()
    } else if says(nodes, src, n - 1, "\\include"@) && included_at(nodes, src, n - 1) is Some {
        includes(nodes, src, n - 1).push(included_at(nodes, src, n - 1)->0)
    } else {
        includes(nodes, src, n - 1)
    }
}

/// What a tree says of the names in it.
#[derive(Debug)]
pub struct Analysis {
    pub assignments: Vec<Binding>,
    pub references: Vec<Symbol>,
    pub includes: Vec<Include>,
}

/// The named node side by side with node `i`, just after it.
pub fn next_named_sibling(tree: &SyntaxTree, i: usize) -> (r: Option<usize>)
    requires
        tree.wf(),
        i < tree.nodes@.len(),
    ensures
        r == named_sibling_after(tree.nodes@, i as int),
        r is Some ==> r->0 < tree.nodes@.len(),
{
    match tree.parent(i) {
        Some(parent) => {
            let row = tree.children(parent);
            let ghost fits = named_after(tree.nodes@, row@, i as int);
            let mut k: usize = 0;
            while k < row.len()
                invariant
                    k <= row@.len(),
                    forall|k: int|
                        0 <= k < row@.len() ==> (#[trigger] row@[k]) < tree.nodes@.len(),
                    fits == named_after(tree.nodes@, row@, i as int),
                    first_from(0, row@.len() as int, fits) == first_from(
                        k as int,
                        row@.len() as int,
                        fits,
                    ),
                    parent_of(tree.nodes@, i as int) == Some(parent),
                    row@ == children_of(tree.nodes@, parent as int),
                decreases row.len() - k,
            {
                if row[k] > i && tree.nodes[row[k]].named {
                    return Some(row[k]);
                }
                k = k + 1;
            }
            None
        },
        None => None,
    }
}

/// Reads the target of the `\include` at node `keyword` from the string that follows it, if one
/// does. Its span covers the whole quoted string.
pub fn include_after(tree: &SyntaxTree, keyword: usize, src: &str) -> (r: Option<Include>)
    requires
        tree.wf(),
        keyword < tree.nodes@.len(),
    ensures
        match r {
            Some(found) => included_at(tree.nodes@, src@, keyword as int) == Some(found@),
            None => included_at(tree.nodes@, src@, keyword as int) is None,
        },
{
    match next_named_sibling(tree, keyword) {
        Some(string) => {
            if !tree.is(string, "string") {
                return None;
            }
            match string_fragment(tree, string, src) {
                Some(path) => Some(Include { path: path.to_string(), span: tree.span(string) }),
                None => None,
            }
        },
        None => None,
    }
}

/// Where the value of the assignment that node `i` names is written.
fn value_of_assignment(tree: &SyntaxTree, i: usize, src: &str) -> (r: Option<Span>)
    requires
        tree.wf(),
        i < tree.nodes@.len(),
        names_assignment(tree.nodes@, i as int),
        tree.nodes@[i as int].parent < tree.nodes@.len(),
        tree.nodes@[tree.nodes@[i as int].parent as int].parent < tree.nodes@.len(),
    ensures
        r == assigned_value(tree.nodes@, src@, i as int),
{
    let lhs = tree.nodes[i].parent;
    let row = tree.children(tree.nodes[lhs].parent);
    let ghost fits = is_node(row@, lhs);
    let mut k: usize = 0;
    while k < row.len()
        invariant
            tree.wf(),
            k <= row@.len(),
            forall|k: int| 0 <= k < row@.len() ==> (#[trigger] row@[k]) < tree.nodes@.len(),
            lhs == tree.nodes@[i as int].parent,
            row@ == children_of(tree.nodes@, tree.nodes@[lhs as int].parent as int),
            fits == is_node(row@, lhs),
            first_from(0, row@.len() as int, fits) == first_from(k as int, row@.len() as int, fits),
        decreases row.len() - k,
    {
        if row[k] == lhs {
            assert(fits(k as int));
            return value_span(tree, &row, k, src);
        }
        k = k + 1;
    }
    None
}

/// Whether node `i` is the name of a top-level assignment.
fn is_assignment_name(tree: &SyntaxTree, i: usize) -> (r: bool)
    requires
        tree.wf(),
        i < tree.nodes@.len(),
    ensures
        r == names_assignment(tree.nodes@, i as int),
        r ==> tree.nodes@[i as int].parent < tree.nodes@.len(),
        r ==> tree.nodes@[tree.nodes@[i as int].parent as int].parent < tree.nodes@.len(),
{
    if !tree.is(i, "symbol") {
        return false;
    }
    match tree.parent(i) {
        Some(lhs) => {
            if !tree.is(lhs, "assignment_lhs") {
                return false;
            }
            match tree.parent(lhs) {
                Some(program) => tree.is(program, "lilypond_program"),
                None => false,
            }
        },
        None => false,
    }
}

/// Extracts assignments, references and includes from a tree.
///
/// `\include` is a command word like any other; paired with the string that follows it, it becomes
/// an [`Include`] rather than a reference.
pub fn extract(tree: &SyntaxTree, src: &str) -> (r: Analysis)
    requires
        tree.wf(),
    ensures
        are_bindings(
            r.assignments@,
            assignments(tree.nodes@, src@, tree.nodes@.len() as int),
        ),
        symbol_views(r.references@) == references(tree.nodes@, src@, tree.nodes@.len() as int),
        include_views(r.includes@) == includes(tree.nodes@, src@, tree.nodes@.len() as int),
{
    let mut found: Vec<Binding> = Vec::new();
    let mut named: Vec<Symbol> = Vec::new();
    let mut files: Vec<Include> = Vec::new();
    assert(symbol_views(named@) =~= Seq::empty());
    assert(include_views(files@) =~= Seq::empty());
    let mut i: usize = 0;
    while i < tree.nodes.len()
        invariant
            tree.wf(),
            i <= tree.nodes@.len(),
            are_bindings(found@, assignments(tree.nodes@, src@, i as int)),
            symbol_views(named@) == references(tree.nodes@, src@, i as int),
            include_views(files@) == includes(tree.nodes@, src@, i as int),
        decreases tree.nodes.len() - i,
    {
        let ghost named_before = symbol_views(named@);
        let ghost files_before = include_views(files@);
        if is_assignment_name(tree, i) {
            let value = value_of_assignment(tree, i, src);
            found.push(Binding::variable(text(tree, i, src), tree.span(i), value));
        }
        if tree.is(i, "escaped_word") {
            let word = text(tree, i, src);
            if same(word, "\\include") {
                match include_after(tree, i, src) {
                    Some(file) => {
                        files.push(file);
                        assert(include_views(files@) =~= files_before.push(file@));
                    },
                    None => {},
                }
            } else {
                let symbol = Symbol { name: strip_backslash(word), span: tree.span(i) };
                named.push(symbol);
                assert(symbol_views(named@) =~= named_before.push(symbol@));
            }
        }
        i = i + 1;
    }
    Analysis { assignments: found, references: named, includes: files }
}

/// Whether some of `bindings` starts at `at`.
pub open spec fn starts_at(bindings: Seq<BindingView>, at: usize) -> bool {
    exists|k: int| 0 <= k < bindings.len() && (#[trigger] bindings[k]).span.start == at
}

/// Those of the first `n` assignments that are not bound already.
pub open spec fn not_bound(assigned: Seq<BindingView>, bound: Seq<BindingView>, n: int) -> Seq<
    BindingView,
>
    decreases n,
{
    if n <= 0 {
        Seq::empty()
    } else if starts_at(bound, assigned[n - 1].span.start) {
        not_bound(assigned, bound, n - 1)
    } else {
        not_bound(assigned, bound, n - 1).push(assigned[n - 1])
    }
}

/// Where a binding goes in a list in source order: behind every one that starts no later.
pub open spec fn slot(sorted: Seq<BindingView>, start: usize) -> int
    decreases sorted.len(),
{
    if sorted.len() == 0 || sorted.last().span.start <= start {
        sorted.len() as int
    } else {
        slot(sorted.drop_last(), start)
    }
}

/// The first `n` of a list of bindings in the order of where they start; those that start in the
/// same place keep their order.
pub open spec fn in_source_order(bindings: Seq<BindingView>, n: int) -> Seq<BindingView>
    decreases n,
{
    if n <= 0 {
        Seq::empty()
    } else {
        let sorted = in_source_order(bindings, n - 1);
        sorted.insert(slot(sorted, bindings[n - 1].span.start), bindings[n - 1])
    }
}

/// Everything a file defines, in source order.
///
/// The two readers overlap in one shape: `myFunc = #(define-music-function …)` is an assignment
/// whose value says what arguments it takes. There the Scheme reader's binding is kept.
pub open spec fn bindings_of(nodes: Seq<Node>, src: Seq<char>) -> Seq<BindingView> {
    let bound = scheme_bindings(nodes, src, 0);
    let assigned = assignments(nodes, src, nodes.len() as int);
    let all = bound + not_bound(assigned, bound, assigned.len() as int);
    in_source_order(all, all.len() as int)
}

pub proof fn lemma_slot(sorted: Seq<BindingView>, start: usize)
    ensures
        0 <= slot(sorted, start) <= sorted.len(),
    decreases sorted.len(),
{
    if sorted.len() > 0 {
        lemma_slot(sorted.drop_last(), start);
    }
}

/// Adds a binding to a list in source order.
fn place(sorted: &mut Vec<Binding>, binding: Binding, Ghost(views): Ghost<Seq<BindingView>>, Ghost(
    view,
): Ghost<BindingView>)
    requires
        are_bindings(old(sorted)@, views),
        is_binding(binding, view),
    ensures
        are_bindings(final(sorted)@, views.insert(slot(views, view.span.start), view)),
{
    proof {
        lemma_slot(views, view.span.start);
    }
    let mut k: usize = sorted.len();
    assert(views.subrange(0, k as int) =~= views);
    while k > 0 && sorted[k - 1].span.start > binding.span.start
        invariant
            k <= sorted@.len(),
            are_bindings(sorted@, views),
            is_binding(binding, view),
            slot(views, view.span.start) == slot(views.subrange(0, k as int), view.span.start),
        decreases k,
    {
        assert(is_binding(sorted@[k - 1], views[k - 1]));
        assert(views.subrange(0, k as int).drop_last() =~= views.subrange(0, k - 1));
        k = k - 1;
    }
    proof {
        if k > 0 {
            assert(is_binding(sorted@[k - 1], views[k - 1]));
        }
        assert(slot(views, view.span.start) == k);
    }
    let ghost before = sorted@;
    sorted.insert(k, binding);
    assert forall|j: int| 0 <= j < sorted@.len() implies is_binding(
        #[trigger] sorted@[j],
        views.insert(k as int, view)[j],
    ) by {
        if j < k {
            assert(sorted@[j] == before[j]);
        } else if j > k {
            assert(sorted@[j] == before[j - 1]);
        }
    }
}

/// Whether some of `starts` is `at`.
fn holds_start(starts: &Vec<usize>, at: usize, Ghost(bound): Ghost<Seq<BindingView>>) -> (r: bool)
    requires
        starts@.len() == bound.len(),
        forall|k: int|
            0 <= k < starts@.len() ==> #[trigger] starts@[k] == bound[k].span.start,
    ensures
        r == starts_at(bound, at),
{
    let mut k: usize = 0;
    while k < starts.len()
        invariant
            k <= starts@.len(),
            starts@.len() == bound.len(),
            forall|k: int|
                0 <= k < starts@.len() ==> #[trigger] starts@[k] == bound[k].span.start,
            forall|j: int| 0 <= j < k ==> (#[trigger] bound[j]).span.start != at,
        decreases starts.len() - k,
    {
        if starts[k] == at {
            assert(bound[k as int].span.start == at);
            return true;
        }
        k = k + 1;
    }
    false
}

/// Where each of a list of bindings starts.
fn starts_of(bindings: &Vec<Binding>, Ghost(views): Ghost<Seq<BindingView>>) -> (r: Vec<usize>)
    requires
        are_bindings(bindings@, views),
    ensures
        r@.len() == views.len(),
        forall|k: int| 0 <= k < r@.len() ==> #[trigger] r@[k] == views[k].span.start,
{
    let mut out: Vec<usize> = Vec::new();
    let mut k: usize = 0;
    while k < bindings.len()
        invariant
            k <= bindings@.len(),
            are_bindings(bindings@, views),
            out@.len() == k,
            forall|j: int| 0 <= j < k ==> #[trigger] out@[j] == views[j].span.start,
        decreases bindings.len() - k,
    {
        assert(is_binding(bindings@[k as int], views[k as int]));
        out.push(bindings[k].span.start);
        k = k + 1;
    }
    out
}

/// Puts bindings in source order, those of the same place in the order they have.
fn sorted(bindings: Vec<Binding>, Ghost(views): Ghost<Seq<BindingView>>) -> (r: Vec<Binding>)
    requires
        are_bindings(bindings@, views),
    ensures
        are_bindings(r@, in_source_order(views, views.len() as int)),
{
    let ghost all = bindings@;
    let mut out: Vec<Binding> = Vec::new();
    for binding in it: bindings
        invariant
            it.seq() == all,
            are_bindings(all, views),
            are_bindings(out@, in_source_order(views, it.index() as int)),
    {
        let ghost k = it.index() as int;
        assert(is_binding(all[k], views[k]));
        place(&mut out, binding, Ghost(in_source_order(views, k)), Ghost(views[k]));
    }
    out
}

/// Everything a file defines, from both readers, in source order.
pub fn merge_bindings(tree: &SyntaxTree, src: &str, assigned: Vec<Binding>) -> (r: Vec<Binding>)
    requires
        tree.wf(),
        are_bindings(assigned@, assignments(tree.nodes@, src@, tree.nodes@.len() as int)),
    ensures
        are_bindings(r@, bindings_of(tree.nodes@, src@)),
{
    let mut bindings = scheme::read(tree, src);
    let ghost bound = scheme_bindings(tree.nodes@, src@, 0);
    let ghost views = assignments(tree.nodes@, src@, tree.nodes@.len() as int);
    let starts = starts_of(&bindings, Ghost(bound));
    let ghost all = assigned@;
    assert(bound + not_bound(views, bound, 0) =~= bound);
    for binding in it: assigned
        invariant
            it.seq() == all,
            are_bindings(all, views),
            starts@.len() == bound.len(),
            forall|k: int|
                0 <= k < starts@.len() ==> #[trigger] starts@[k] == bound[k].span.start,
            are_bindings(bindings@, bound + not_bound(views, bound, it.index() as int)),
    {
        let ghost k = it.index() as int;
        assert(is_binding(all[k], views[k]));
        if !holds_start(&starts, binding.span.start, Ghost(bound)) {
            let ghost before = bindings@;
            bindings.push(binding);
            assert(bound + not_bound(views, bound, k + 1) =~= (bound + not_bound(
                views,
                bound,
                k,
            )).push(views[k]));
        }
    }
    let ghost merged = bound + not_bound(views, bound, views.len() as int);
    sorted(bindings, Ghost(merged))
}

/// Whichever reader found them, a file's bindings stand in source order.
pub proof fn law_bindings_are_in_source_order(nodes: Seq<Node>, src: Seq<char>, i: int, j: int)
    requires
        0 <= i <= j < bindings_of(nodes, src).len(),
    ensures
        bindings_of(nodes, src)[i].span.start <= bindings_of(nodes, src)[j].span.start,
{
    let bound = scheme_bindings(nodes, src, 0);
    let assigned = assignments(nodes, src, nodes.len() as int);
    let all = bound + not_bound(assigned, bound, assigned.len() as int);
    lemma_sorted(all, all.len() as int);
}

proof fn lemma_sorted(bindings: Seq<BindingView>, n: int)
    requires
        0 <= n <= bindings.len(),
    ensures
        in_source_order(bindings, n).len() == n,
        forall|i: int, j: int|
            0 <= i <= j < n ==> in_source_order(bindings, n)[i].span.start <= in_source_order(
                bindings,
                n,
            )[j].span.start,
    decreases n,
{
    if n > 0 {
        lemma_sorted(bindings, n - 1);
        let before = in_source_order(bindings, n - 1);
        let start = bindings[n - 1].span.start;
        lemma_slot(before, start);
        lemma_slot_splits(before, start);
        let k = slot(before, start);
        let after = in_source_order(bindings, n);
        assert(after == before.insert(k, bindings[n - 1]));
        assert forall|i: int, j: int| 0 <= i <= j < n implies after[i].span.start
            <= after[j].span.start by {
            if i < k && j < k {
            } else if i < k && j > k {
                assert(after[j] == before[j - 1]);
            } else if i > k {
                assert(after[i] == before[i - 1]);
                assert(after[j] == before[j - 1]);
            } else if i == k && j > k {
                assert(after[j] == before[j - 1]);
            }
        }
    }
}

proof fn lemma_slot_splits(sorted: Seq<BindingView>, start: usize)
    requires
        forall|i: int, j: int|
            0 <= i <= j < sorted.len() ==> sorted[i].span.start <= sorted[j].span.start,
    ensures
        forall|i: int| 0 <= i < slot(sorted, start) ==> (#[trigger] sorted[i]).span.start <= start,
        forall|i: int|
            slot(sorted, start) <= i < sorted.len() ==> start < (#[trigger] sorted[i]).span.start,
    decreases sorted.len(),
{
    if sorted.len() > 0 {
        if sorted.last().span.start <= start {
            assert forall|i: int| 0 <= i < sorted.len() implies (#[trigger] sorted[i]).span.start
                <= start by {
                assert(sorted[i].span.start <= sorted[sorted.len() - 1].span.start);
            }
        } else {
            let rest = sorted.drop_last();
            assert forall|i: int, j: int| 0 <= i <= j < rest.len() implies rest[i].span.start
                <= rest[j].span.start by {
                assert(sorted[i].span.start <= sorted[j].span.start);
            }
            lemma_slot_splits(rest, start);
            lemma_slot(rest, start);
            assert forall|i: int| 0 <= i < slot(sorted, start) implies (
            #[trigger] sorted[i]).span.start <= start by {
                assert(rest[i] == sorted[i]);
            }
            assert forall|i: int| slot(sorted, start) <= i < sorted.len() implies start < (
            #[trigger] sorted[i]).span.start by {
                if i < rest.len() {
                    assert(rest[i] == sorted[i]);
                }
            }
        }
    }
}

} // verus!
