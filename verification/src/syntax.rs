//! The syntax tree of a document, as plain values.
//!
//! The nodes stand in one vector, in the order a reader meets them: a node before everything inside
//! it, and everything inside it before what follows it.
use vstd::prelude::*;
use crate::finding::last_below;
use crate::line_struct::Span;

verus! {

/// One node of the tree.
#[derive(Debug)]
pub struct Node {
    pub kind: String,
    pub start: usize,
    pub end: usize,
    pub named: bool,
    /// The node stands for a token that was expected and not found.
    pub missing: bool,
    /// The node holds text that could not be parsed.
    pub error: bool,
    /// The node, or one inside it, is missing or an error.
    pub has_error: bool,
    /// The node it sits in; the root names itself.
    pub parent: usize,
    /// The index just past its last descendant.
    pub past: usize,
}

impl Node {
    pub fn copy(&self) -> (r: Self)
        ensures
            r == *self,
    {
        Node {
            kind: self.kind.clone(),
            start: self.start,
            end: self.end,
            named: self.named,
            missing: self.missing,
            error: self.error,
            has_error: self.has_error,
            parent: self.parent,
            past: self.past,
        }
    }
}

#[derive(Debug)]
pub struct SyntaxTree {
    pub nodes: Vec<Node>,
}

/// Node `i` lies inside its parent.
pub open spec fn held(nodes: Seq<Node>, i: int) -> bool {
    nodes[i].past <= nodes[nodes[i].parent as int].past
}

/// A node is its parent's, and its descendants are the nodes that follow it up to `past`.
pub open spec fn nested(nodes: Seq<Node>) -> bool {
    &&& nodes.len() > 0
    &&& nodes[0].past == nodes.len()
    &&& nodes[0].parent == 0
    &&& forall|i: int| 0 <= i < nodes.len() ==> i < (#[trigger] nodes[i]).past <= nodes.len()
    &&& forall|i: int| 0 < i < nodes.len() ==> (#[trigger] nodes[i]).parent < i
    &&& forall|i: int| 0 < i < nodes.len() ==> #[trigger] held(nodes, i)
    &&& forall|i: int, j: int|
        0 <= i < j < nodes.len() && j < nodes[i].past ==> (#[trigger] nodes[j]).past <= (
        #[trigger] nodes[i]).past && nodes[j].parent >= i
}

/// The nodes from `at` to `stop` that lie side by side.
pub open spec fn row(nodes: Seq<Node>, at: int, stop: int) -> Seq<usize>
    decreases stop - at,
{
    if 0 <= at < stop && at < nodes[at].past <= stop {
        seq![at as usize] + row(nodes, nodes[at].past as int, stop)
    } else {
        Seq::empty()
    }
}

/// The children of node `i`, in order.
pub open spec fn children_of(nodes: Seq<Node>, i: int) -> Seq<usize> {
    row(nodes, i + 1, nodes[i].past as int)
}

/// The span of a node.
pub open spec fn span_of(nodes: Seq<Node>, i: int) -> Span {
    Span { start: nodes[i].start, end: nodes[i].end }
}

proof fn lemma_row(nodes: Seq<Node>, parent: int, at: int)
    requires
        nested(nodes),
        0 <= parent < at <= nodes[parent].past,
        parent < nodes.len(),
    ensures
        forall|k: int|
            0 <= k < row(nodes, at, nodes[parent].past as int).len() ==> parent < (
            #[trigger] row(nodes, at, nodes[parent].past as int)[k]) < nodes[parent].past,
        forall|k: int, l: int|
            0 <= k < l < row(nodes, at, nodes[parent].past as int).len() ==> row(
                nodes,
                at,
                nodes[parent].past as int,
            )[k] < row(nodes, at, nodes[parent].past as int)[l],
        forall|k: int|
            0 <= k < row(nodes, at, nodes[parent].past as int).len() ==> at <= (
            #[trigger] row(nodes, at, nodes[parent].past as int)[k]),
    decreases nodes[parent].past - at,
{
    if at < nodes[parent].past {
        assert(nodes[at].past <= nodes[parent].past);
        assert(at < nodes[at].past);
        lemma_row(nodes, parent, nodes[at].past as int);
        let stop = nodes[parent].past as int;
        let rest = row(nodes, nodes[at].past as int, stop);
        let all = row(nodes, at, stop);
        assert(all == seq![at as usize] + rest);
        assert forall|k: int| 0 <= k < all.len() implies parent < #[trigger] all[k] < stop && at
            <= all[k] by {
            if k > 0 {
                assert(all[k] == rest[k - 1]);
            }
        }
        assert forall|k: int, l: int| 0 <= k < l < all.len() implies all[k] < all[l] by {
            assert(all[l] == rest[l - 1]);
            if k > 0 {
                assert(all[k] == rest[k - 1]);
            }
        }
    }
}

/// Children come after their parent, in order, inside it.
pub proof fn lemma_children(nodes: Seq<Node>, i: int)
    requires
        nested(nodes),
        0 <= i < nodes.len(),
    ensures
        forall|k: int|
            0 <= k < children_of(nodes, i).len() ==> i < (#[trigger] children_of(nodes, i)[k])
                < nodes[i].past,
        forall|k: int, l: int|
            0 <= k < l < children_of(nodes, i).len() ==> children_of(nodes, i)[k] < children_of(
                nodes,
                i,
            )[l],
{
    assert(i < nodes[i].past);
    lemma_row(nodes, i, i + 1);
}

/// The children of a node have it as their parent.
pub proof fn lemma_parent_of_children(nodes: Seq<Node>, i: int)
    requires
        nested(nodes),
        0 <= i < nodes.len() <= usize::MAX,
    ensures
        forall|k: int|
            0 <= k < children_of(nodes, i).len() ==> nodes[(#[trigger] children_of(
                nodes,
                i,
            )[k]) as int].parent == i,
{
    assert(i < nodes[i].past);
    lemma_row_parent(nodes, i, i + 1);
}

proof fn lemma_row_parent(nodes: Seq<Node>, parent: int, at: int)
    requires
        nested(nodes),
        0 <= parent < at <= nodes[parent].past,
        parent < nodes.len() <= usize::MAX,
        forall|q: int| parent < q < at ==> (#[trigger] nodes[q]).past <= at,
    ensures
        forall|k: int|
            0 <= k < row(nodes, at, nodes[parent].past as int).len() ==> nodes[(#[trigger] row(
                nodes,
                at,
                nodes[parent].past as int,
            )[k]) as int].parent == parent,
    decreases nodes[parent].past - at,
{
    if at < nodes[parent].past {
        assert(nodes[at].past <= nodes[parent].past);
        assert(at < nodes[at].past);
        assert(held(nodes, at));
        let q = nodes[at].parent as int;
        assert(q < at && q >= parent);
        if q > parent {
            assert(nodes[q].past <= at);
        }
        let past = nodes[at].past as int;
        assert forall|q: int| parent < q < past implies (#[trigger] nodes[q]).past <= past by {
            if q < at {
                assert(nodes[q].past <= at);
            } else if q > at {
                assert(nodes[q].past <= nodes[at].past);
            }
        }
        lemma_row_parent(nodes, parent, past);
        let stop = nodes[parent].past as int;
        let rest = row(nodes, past, stop);
        let all = row(nodes, at, stop);
        assert(all == seq![at as usize] + rest);
        assert forall|k: int| 0 <= k < all.len() implies nodes[(
        #[trigger] all[k]) as int].parent == parent by {
            if k > 0 {
                assert(all[k] == rest[k - 1]);
            }
        }
    }
}

/// Every node but the root is among the children of its parent.
pub proof fn lemma_among_children(nodes: Seq<Node>, i: int)
    requires
        nested(nodes),
        0 < i < nodes.len() <= usize::MAX,
    ensures
        exists|k: int|
            0 <= k < children_of(nodes, nodes[i].parent as int).len() && #[trigger] children_of(
                nodes,
                nodes[i].parent as int,
            )[k] == i,
{
    let parent = nodes[i].parent as int;
    assert(held(nodes, i));
    lemma_row_holds(nodes, parent, parent + 1, i);
    let children = children_of(nodes, parent);
    assert(children == row(nodes, parent + 1, nodes[parent].past as int));
    let k = choose|k: int| 0 <= k < children.len() && children[k] == i;
    assert(children[k] == i);
}

proof fn lemma_row_holds(nodes: Seq<Node>, parent: int, at: int, i: int)
    requires
        nested(nodes),
        0 <= parent < at <= i < nodes[parent].past,
        nodes[parent].past <= nodes.len() <= usize::MAX,
        nodes[i].parent == parent,
    ensures
        exists|k: int|
            0 <= k < row(nodes, at, nodes[parent].past as int).len() && #[trigger] row(
                nodes,
                at,
                nodes[parent].past as int,
            )[k] == i,
    decreases i - at,
{
    let stop = nodes[parent].past as int;
    assert(at < nodes[at].past && nodes[at].past <= nodes[parent].past);
    let rest = row(nodes, nodes[at].past as int, stop);
    let all = row(nodes, at, stop);
    assert(all == seq![at as usize] + rest);
    if at == i {
        assert(all[0] == i);
    } else {
        if i < nodes[at].past {
            assert(nodes[i].parent >= at);
        }
        lemma_row_holds(nodes, parent, nodes[at].past as int, i);
        let k = choose|k: int| 0 <= k < rest.len() && rest[k] == i;
        assert(all[k + 1] == rest[k]);
    }
}

proof fn lemma_row_len(nodes: Seq<Node>, at: int, stop: int)
    requires
        at <= stop,
    ensures
        row(nodes, at, stop).len() <= stop - at,
    decreases stop - at,
{
    if 0 <= at < stop && at < nodes[at].past <= stop {
        lemma_row_len(nodes, nodes[at].past as int, stop);
    }
}

/// A node has fewer children than the tree has nodes.
pub proof fn lemma_few_children(nodes: Seq<Node>, i: int)
    requires
        nested(nodes),
        0 <= i < nodes.len(),
    ensures
        children_of(nodes, i).len() < nodes.len(),
{
    assert(i < nodes[i].past);
    lemma_row_len(nodes, i + 1, nodes[i].past as int);
}

/// Whether `c` reaches far enough forward to hold the end of `[from, to)` and a part of it.
pub open spec fn reaches(node: Node, from: int, to: int) -> bool {
    &&& node.end >= to
    &&& if node.start == node.end {
        node.end >= from
    } else {
        node.end > from
    }
}

/// The first of a row of nodes that reaches `[from, to)`.
pub open spec fn first_reaching(nodes: Seq<Node>, row: Seq<usize>, from: int, to: int) -> Option<
    usize,
>
    decreases row.len(),
{
    if row.len() == 0 {
        None
    } else if reaches(nodes[row[0] as int], from, to) {
        Some(row[0])
    } else {
        first_reaching(nodes, row.drop_first(), from, to)
    }
}

proof fn lemma_first_reaching(nodes: Seq<Node>, row: Seq<usize>, from: int, to: int)
    ensures
        first_reaching(nodes, row, from, to) matches Some(c) ==> row.contains(c),
    decreases row.len(),
{
    if row.len() > 0 {
        lemma_first_reaching(nodes, row.drop_first(), from, to);
        if first_reaching(nodes, row, from, to) is Some {
            if reaches(nodes[row[0] as int], from, to) {
                assert(row.contains(row[0]));
            } else {
                let c = first_reaching(nodes, row.drop_first(), from, to)->0;
                let k = choose|k: int| 0 <= k < row.len() - 1 && row.drop_first()[k] == c;
                assert(row[k + 1] == c);
            }
        }
    }
}

/// No node reaches past the largest offset.
pub proof fn lemma_none_reaching(nodes: Seq<Node>, row: Seq<usize>, from: int, to: int)
    requires
        to > usize::MAX,
    ensures
        first_reaching(nodes, row, from, to) is None,
    decreases row.len(),
{
    if row.len() > 0 {
        lemma_none_reaching(nodes, row.drop_first(), from, to);
    }
}

/// The smallest node inside `i` that spans `[from, to)`, or `i` itself.
pub open spec fn smallest_from(nodes: Seq<Node>, i: int, from: int, to: int) -> int
    decreases nodes[i].past - i,
    when nested(nodes) && 0 <= i < nodes.len()
    via smallest_from_decreases
{
    match first_reaching(nodes, children_of(nodes, i), from, to) {
        Some(c) => if nodes[c as int].start <= from {
            smallest_from(nodes, c as int, from, to)
        } else {
            i
        },
        None => i,
    }
}

#[via_fn]
proof fn smallest_from_decreases(nodes: Seq<Node>, i: int, from: int, to: int) {
    lemma_reaching_child(nodes, i, from, to);
}

/// The smallest node that spans a range is one of the tree.
pub proof fn lemma_smallest_from(nodes: Seq<Node>, i: int, from: int, to: int)
    requires
        nested(nodes),
        0 <= i < nodes.len(),
    ensures
        0 <= smallest_from(nodes, i, from, to) < nodes.len(),
    decreases nodes[i].past - i,
{
    lemma_reaching_child(nodes, i, from, to);
    match first_reaching(nodes, children_of(nodes, i), from, to) {
        Some(c) => if nodes[c as int].start <= from {
            lemma_smallest_from(nodes, c as int, from, to);
        },
        None => {},
    }
}

/// A child that reaches a range is a smaller subtree.
pub proof fn lemma_reaching_child(nodes: Seq<Node>, i: int, from: int, to: int)
    requires
        nested(nodes),
        0 <= i < nodes.len(),
    ensures
        first_reaching(nodes, children_of(nodes, i), from, to) matches Some(c) ==> i < c
            < nodes.len() && 0 <= nodes[c as int].past - c < nodes[i].past - i,
{
    lemma_children(nodes, i);
    lemma_first_reaching(nodes, children_of(nodes, i), from, to);
    match first_reaching(nodes, children_of(nodes, i), from, to) {
        Some(c) => {
            let k = choose|k: int|
                0 <= k < children_of(nodes, i).len() && children_of(nodes, i)[k] == c;
            assert(i < children_of(nodes, i)[k] < nodes[i].past);
            assert(nodes[c as int].past <= nodes[i].past);
            assert(c < nodes[c as int].past);
        },
        None => {},
    }
}

/// The smallest node that spans `[from, to)`; none for a range that ends before it starts.
pub open spec fn smallest(nodes: Seq<Node>, from: int, to: int) -> Option<int> {
    if from <= to {
        Some(smallest_from(nodes, 0, from, to))
    } else {
        None
    }
}

impl SyntaxTree {
    pub closed spec fn wf(self) -> bool {
        nested(self.nodes@)
    }

    /// A tree that is well formed is nested, and one that is nested is well formed.
    pub proof fn lemma_wf(self)
        ensures
            self.wf() == nested(self.nodes@),
    {
    }

    /// The index just past the last descendant of node `i`.
    pub fn past(&self, i: usize) -> (r: usize)
        requires
            self.wf(),
            i < self.nodes@.len(),
        ensures
            r == self.nodes@[i as int].past,
            i < r <= self.nodes@.len(),
    {
        self.nodes[i].past
    }

    /// A tree has a root.
    pub proof fn lemma_root(self)
        requires
            self.wf(),
        ensures
            self.nodes@.len() > 0,
    {
    }

    /// The children of node `i`, in order.
    pub fn children(&self, i: usize) -> (r: Vec<usize>)
        requires
            self.wf(),
            i < self.nodes@.len(),
        ensures
            r@ == children_of(self.nodes@, i as int),
            forall|k: int| 0 <= k < r@.len() ==> i < (#[trigger] r@[k]) < self.nodes@.len(),
    {
        let mut out: Vec<usize> = Vec::new();
        let stop = self.nodes[i].past;
        assert(i < self.nodes@[i as int].past);
        let mut at: usize = i + 1;
        assert(out@ + row(self.nodes@, at as int, stop as int) =~= children_of(
            self.nodes@,
            i as int,
        ));
        while at < stop
            invariant
                self.wf(),
                i < at <= stop,
                i < self.nodes@.len(),
                stop == self.nodes@[i as int].past,
                stop <= self.nodes@.len(),
                out@ + row(self.nodes@, at as int, stop as int) == children_of(
                    self.nodes@,
                    i as int,
                ),
            decreases stop - at,
        {
            let ghost before = out@;
            out.push(at);
            assert(self.nodes@[at as int].past <= self.nodes@[i as int].past);
            assert(at < self.nodes@[at as int].past);
            assert(out@ + row(self.nodes@, self.nodes@[at as int].past as int, stop as int)
                =~= before + row(self.nodes@, at as int, stop as int));
            at = self.nodes[at].past;
        }
        assert(out@ + row(self.nodes@, at as int, stop as int) =~= out@);
        proof {
            lemma_children(self.nodes@, i as int);
        }
        out
    }

    /// The node that node `i` sits in; none for the root.
    pub fn parent(&self, i: usize) -> (r: Option<usize>)
        requires
            self.wf(),
            i < self.nodes@.len(),
        ensures
            r == parent_of(self.nodes@, i as int),
            r is Some ==> r->0 < i,
    {
        if i == 0 {
            None
        } else {
            Some(self.nodes[i].parent)
        }
    }

    /// The smallest node that spans `[from, to)`; none for a range that ends before it starts.
    pub fn descendant_for_byte_range(&self, from: usize, to: usize) -> (r: Option<usize>)
        requires
            self.wf(),
        ensures
            match r {
                Some(i) => smallest(self.nodes@, from as int, to as int) == Some(i as int),
                None => smallest(self.nodes@, from as int, to as int) is None,
            },
            r is Some ==> r->0 < self.nodes@.len(),
    {
        if from > to {
            return None;
        }
        Some(self.smallest_in(0, from, to))
    }

    /// The smallest node inside `i` that spans `[from, to)`, or `i` itself.
    fn smallest_in(&self, i: usize, from: usize, to: usize) -> (r: usize)
        requires
            self.wf(),
            i < self.nodes@.len(),
        ensures
            r == smallest_from(self.nodes@, i as int, from as int, to as int),
            r < self.nodes@.len(),
        decreases self.nodes@[i as int].past - i,
    {
        let children = self.children(i);
        proof {
            lemma_reaching_child(self.nodes@, i as int, from as int, to as int);
        }
        match self.first_reaching(&children, from, to) {
            Some(c) => if self.nodes[c].start <= from {
                self.smallest_in(c, from, to)
            } else {
                i
            },
            None => i,
        }
    }

    fn first_reaching(&self, row: &Vec<usize>, from: usize, to: usize) -> (r: Option<usize>)
        requires
            forall|k: int| 0 <= k < row@.len() ==> (#[trigger] row@[k]) < self.nodes@.len(),
        ensures
            r == first_reaching(self.nodes@, row@, from as int, to as int),
            r is Some ==> r->0 < self.nodes@.len(),
    {
        let mut k: usize = 0;
        assert(row@.subrange(0, row@.len() as int) =~= row@);
        while k < row.len()
            invariant
                k <= row@.len(),
                forall|k: int| 0 <= k < row@.len() ==> (#[trigger] row@[k]) < self.nodes@.len(),
                first_reaching(self.nodes@, row@, from as int, to as int) == first_reaching(
                    self.nodes@,
                    row@.subrange(k as int, row@.len() as int),
                    from as int,
                    to as int,
                ),
            decreases row.len() - k,
        {
            let c = row[k];
            let start = self.nodes[c].start;
            let end = self.nodes[c].end;
            if end >= to && (if start == end {
                end >= from
            } else {
                end > from
            }) {
                return Some(c);
            }
            assert(row@.subrange(k as int, row@.len() as int).drop_first() =~= row@.subrange(
                k + 1,
                row@.len() as int,
            ));
            k = k + 1;
        }
        None
    }

    /// The span of a node.
    pub fn span(&self, i: usize) -> (r: Span)
        requires
            i < self.nodes@.len(),
        ensures
            r == span_of(self.nodes@, i as int),
    {
        Span::new(self.nodes[i].start, self.nodes[i].end)
    }

    /// Whether node `i` is of kind `kind`.
    pub fn is(&self, i: usize, kind: &str) -> (r: bool)
        requires
            i < self.nodes@.len(),
        ensures
            r == (self.nodes@[i as int].kind@ == kind@),
    {
        crate::text::same(self.nodes[i].kind.as_str(), kind)
    }
}

/// The node that node `i` sits in; none for the root.
pub open spec fn parent_of(nodes: Seq<Node>, i: int) -> Option<usize> {
    if i == 0 {
        None
    } else {
        Some(nodes[i].parent)
    }
}

/// Which of a row of nodes come before node `i`.
pub open spec fn earlier(row: Seq<usize>, i: int) -> spec_fn(int) -> bool {
    |k: int| row[k] < i
}

/// The node side by side with node `i`, just before it.
pub open spec fn sibling_before(nodes: Seq<Node>, i: int) -> Option<usize> {
    match parent_of(nodes, i) {
        Some(parent) => {
            let row = children_of(nodes, parent as int);
            match last_below(row.len() as int, earlier(row, i)) {
                Some(k) => Some(row[k as int]),
                None => None,
            }
        },
        None => None,
    }
}

impl SyntaxTree {
    pub fn copy(&self) -> (r: Self)
        requires
            self.wf(),
        ensures
            r.wf(),
            r.nodes@ == self.nodes@,
    {
        let mut nodes: Vec<Node> = Vec::new();
        let mut i: usize = 0;
        while i < self.nodes.len()
            invariant
                i <= self.nodes@.len(),
                nodes@ == self.nodes@.subrange(0, i as int),
            decreases self.nodes.len() - i,
        {
            nodes.push(self.nodes[i].copy());
            assert(nodes@ =~= self.nodes@.subrange(0, i + 1));
            i = i + 1;
        }
        assert(nodes@ =~= self.nodes@);
        SyntaxTree { nodes }
    }

    /// The node side by side with node `i`, just before it.
    pub fn prev_sibling(&self, i: usize) -> (r: Option<usize>)
        requires
            self.wf(),
            i < self.nodes@.len(),
        ensures
            r == sibling_before(self.nodes@, i as int),
            r is Some ==> r->0 < i,
    {
        match self.parent(i) {
            Some(parent) => {
                let row = self.children(parent);
                let ghost fits = earlier(row@, i as int);
                let mut k: usize = row.len();
                while k > 0
                    invariant
                        k <= row@.len(),
                        fits == earlier(row@, i as int),
                        last_below(row@.len() as int, fits) == last_below(k as int, fits),
                        parent_of(self.nodes@, i as int) == Some(parent),
                        row@ == children_of(self.nodes@, parent as int),
                    decreases k,
                {
                    if row[k - 1] < i {
                        return Some(row[k - 1]);
                    }
                    k = k - 1;
                }
                None
            },
            None => None,
        }
    }
}

} // verus!
