//! The parts of a top-level assignment `name = value`.
//!
//! The tree holds them side by side: the left-hand side, the `=`, and the nodes of the value.
use vstd::prelude::*;
use crate::command::reader::{block_kind, is_block};
use crate::line_struct::Span;
use crate::syntax::{Node, SyntaxTree};
use crate::text::{trim_range, trimmed_range};

verus! {

/// A range of bytes with the white space at its ends left out, as a span.
pub open spec fn trimmed_span(src: Seq<char>, from: int, to: int) -> Span {
    let (start, end) = trimmed_range(src, from, to);
    Span { start: start as usize, end: end as usize }
}

/// Where the right-hand side that starts at `j` of a row ends: behind its first block, or at the
/// next assignment.
pub open spec fn rhs_past(nodes: Seq<Node>, row: Seq<usize>, j: int) -> int
    decreases row.len() - j,
{
    if j < 0 || j >= row.len() || nodes[row[j] as int].kind@ == "assignment_lhs"@ {
        j
    } else if block_kind(nodes[row[j] as int].kind@) {
        j + 1
    } else {
        rhs_past(nodes, row, j + 1)
    }
}

/// Where the right-hand side of the assignment at `i` of a row starts: behind the `=`.
pub open spec fn rhs_first(nodes: Seq<Node>, row: Seq<usize>, i: int) -> int {
    if i + 1 < row.len() && nodes[row[i + 1] as int].kind@ == "punctuation"@ {
        i + 2
    } else {
        i + 1
    }
}

pub proof fn lemma_rhs_past(nodes: Seq<Node>, row: Seq<usize>, j: int)
    requires
        0 <= j,
    ensures
        j <= rhs_past(nodes, row, j),
        j <= row.len() ==> rhs_past(nodes, row, j) <= row.len(),
    decreases row.len() - j,
{
    if j < row.len() {
        lemma_rhs_past(nodes, row, j + 1);
    }
}

/// Where the right-hand side that starts at `first` of a row ends.
pub fn rhs_end(tree: &SyntaxTree, row: &Vec<usize>, first: usize) -> (j: usize)
    requires
        tree.wf(),
        forall|k: int| 0 <= k < row@.len() ==> (#[trigger] row@[k]) < tree.nodes@.len(),
        first <= row@.len(),
    ensures
        j == rhs_past(tree.nodes@, row@, first as int),
        first <= j <= row@.len(),
{
    let mut j: usize = first;
    while j < row.len() && !tree.is(row[j], "assignment_lhs")
        invariant
            forall|k: int| 0 <= k < row@.len() ==> (#[trigger] row@[k]) < tree.nodes@.len(),
            first <= j <= row@.len(),
            rhs_past(tree.nodes@, row@, first as int) == rhs_past(tree.nodes@, row@, j as int),
        decreases row.len() - j,
    {
        if is_block(tree.nodes[row[j]].kind.as_str()) {
            return j + 1;
        }
        j = j + 1;
    }
    j
}

/// Where the value of the assignment at `i` of a row is written; none where there is nothing behind
/// the `=`.
pub open spec fn value_place(nodes: Seq<Node>, src: Seq<char>, row: Seq<usize>, i: int) -> Option<
    Span,
> {
    let first = rhs_first(nodes, row, i);
    let past = rhs_past(nodes, row, first);
    if first < past {
        Some(
            trimmed_span(
                src,
                nodes[row[first] as int].start as int,
                nodes[row[past - 1] as int].end as int,
            ),
        )
    } else {
        None
    }
}

/// Where the value of the assignment at `i` of `row` is written.
pub fn value_span(tree: &SyntaxTree, row: &Vec<usize>, i: usize, src: &str) -> (r: Option<Span>)
    requires
        tree.wf(),
        forall|k: int| 0 <= k < row@.len() ==> (#[trigger] row@[k]) < tree.nodes@.len(),
        i < row@.len(),
    ensures
        r == value_place(tree.nodes@, src@, row@, i as int),
{
    let n = row.len();
    let first: usize = if n - i > 1 && tree.is(row[i + 1], "punctuation") {
        i + 2
    } else {
        i + 1
    };
    let past = rhs_end(tree, row, first);
    if first >= past {
        return None;
    }
    let (start, end) = trim_range(src, tree.nodes[row[first]].start, tree.nodes[row[past - 1]].end);
    Some(Span::new(start, end))
}

} // verus!
