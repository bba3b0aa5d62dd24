//! Parsing: from a text to its [`SyntaxTree`].
//!
//! The tree-sitter parser reads the text with the grammar it is given. What it makes of it is
//! copied, node by node, into plain values.
use vstd::prelude::*;
use vstd::utf8::*;
use crate::finding::{first_from, last_below, lemma_first_from, lemma_last_below};
use crate::line_struct::{lemma_line_start_range, line_start, newlines_before, start_of_line};
use crate::syntax::{Node, SyntaxTree, held, nested};

verus! {

/// A grammar, as the tree-sitter crate has it.
#[verifier::external_type_specification]
#[verifier::external_body]
pub struct ExLanguage(tree_sitter::Language);

/// A parsed tree, as the tree-sitter crate has it.
#[verifier::external_type_specification]
#[verifier::external_body]
pub struct ExTree(tree_sitter::Tree);

/// One node of a parsed tree, as a reader meets it.
#[derive(Debug)]
pub struct Row {
    pub kind: String,
    pub start: usize,
    pub end: usize,
    pub named: bool,
    pub missing: bool,
    pub error: bool,
    pub has_error: bool,
    /// How many nodes it sits in.
    pub depth: u32,
}

/// What a [`Row`] says.
pub struct RowView {
    pub kind: Seq<char>,
    pub start: usize,
    pub end: usize,
    pub named: bool,
    pub missing: bool,
    pub error: bool,
    pub has_error: bool,
    pub depth: u32,
}

impl View for Row {
    type V = RowView;

    open spec fn view(&self) -> RowView {
        RowView {
            kind: self.kind@,
            start: self.start,
            end: self.end,
            named: self.named,
            missing: self.missing,
            error: self.error,
            has_error: self.has_error,
            depth: self.depth,
        }
    }
}

/// The nodes of a parsed tree, each before everything inside it and that before what follows.
pub uninterp spec fn tree_rows(tree: tree_sitter::Tree) -> Seq<RowView>;

/// The tree that a grammar makes of a text, given the tree of an earlier text where there is one;
/// none where the grammar is of a version that the parser cannot run.
pub uninterp spec fn parse_of(
    language: tree_sitter::Language,
    text: Seq<char>,
    earlier: Option<tree_sitter::Tree>,
) -> Option<tree_sitter::Tree>;

/// The grammar that a tree was parsed with.
pub uninterp spec fn language_of(tree: tree_sitter::Tree) -> tree_sitter::Language;

/// A tree after it was told of a change to its text.
pub uninterp spec fn edited_of(tree: tree_sitter::Tree, edit: TreeEdit) -> tree_sitter::Tree;

/// The largest text that the parser can take, in bytes: it counts them in 32 bits.
pub const LONGEST_TEXT: usize = 0xffff_ffff;

/// A place in a text: its line, counted from 0, and how many bytes of that line come before it.
#[derive(Debug, Clone, Copy, PartialEq, Eq, Structural)]
pub struct TextPoint {
    pub row: usize,
    pub column: usize,
}

/// What a parsed tree has to be told of a change to its text: where the change starts, where what
/// it replaced ended, and where what it wrote ends.
#[derive(Debug, Clone, Copy, PartialEq, Eq, Structural)]
pub struct TreeEdit {
    pub start_byte: usize,
    pub old_end_byte: usize,
    pub new_end_byte: usize,
    pub start_position: TextPoint,
    pub old_end_position: TextPoint,
    pub new_end_position: TextPoint,
}

/// The row and column of a place.
pub open spec fn point_of(bytes: Seq<u8>, at: int) -> TextPoint {
    TextPoint {
        row: newlines_before(bytes, at) as usize,
        column: (at - line_start(bytes, at)) as usize,
    }
}

/// Whether a point can be told to the parser.
pub open spec fn fits(point: TextPoint) -> bool {
    point.row <= LONGEST_TEXT && point.column <= LONGEST_TEXT
}

/// The row and column of the byte at `at`.
pub fn point_at(text: &str, at: usize) -> (r: TextPoint)
    requires
        at <= encode_utf8(text@).len(),
    ensures
        r == point_of(encode_utf8(text@), at as int),
        r.row <= at,
        r.column <= at,
{
    let bytes = text.as_bytes();
    let start = start_of_line(text, at);
    let mut row: usize = 0;
    let mut i: usize = 0;
    while i < at
        invariant
            i <= at,
            at <= bytes@.len(),
            row <= i,
            row == newlines_before(bytes@, i as int),
        decreases at - i,
    {
        if bytes[i] == 10 {
            row = row + 1;
        }
        i = i + 1;
    }
    proof {
        lemma_line_start_range(bytes@, at as int);
    }
    TextPoint { row, column: at - start }
}

/// The tree that an optional reference points at.
pub open spec fn earlier_tree(earlier: Option<&tree_sitter::Tree>) -> Option<tree_sitter::Tree> {
    match earlier {
        Some(tree) => Some(*tree),
        None => None,
    }
}

/// `tree_sitter::Parser::parse`, on a parser that was just made and given its grammar by
/// `set_language`, with no time limit and no cancellation. The tree is a function of the grammar,
/// the text and the earlier tree; there is none where `set_language` refuses the grammar for its
/// version. An earlier tree has to be one of the same grammar; whether the tree is then the one that
/// the text has without it is left open.
#[verifier::external_body]
fn parse_text(
    language: &tree_sitter::Language,
    text: &str,
    earlier: Option<&tree_sitter::Tree>,
) -> (r: Option<tree_sitter::Tree>)
    requires
        encode_utf8(text@).len() <= LONGEST_TEXT,
        earlier matches Some(tree) ==> language_of(*tree) == *language,
    ensures
        r == parse_of(*language, text@, earlier_tree(earlier)),
        r matches Some(tree) ==> language_of(tree) == *language,
{
    let mut parser = tree_sitter::Parser::new();
    parser.set_language(language).ok()?;
    parser.parse(text, earlier)
}

/// `tree_sitter::Tree::language`, compared with a grammar.
#[verifier::external_body]
pub(crate) fn is_of_language(tree: &tree_sitter::Tree, language: &tree_sitter::Language) -> (r: bool)
    ensures
        r == (language_of(*tree) == *language),
{
    *tree.language() == *language
}

/// `tree_sitter::Tree::edit`: what becomes of the tree is a function of the tree and the change it
/// is told of. It stays a tree of its grammar.
#[verifier::external_body]
pub(crate) fn edit_tree(tree: &mut tree_sitter::Tree, edit: TreeEdit)
    requires
        edit.start_byte <= edit.old_end_byte <= LONGEST_TEXT,
        edit.start_byte <= edit.new_end_byte <= LONGEST_TEXT,
        fits(edit.start_position),
        fits(edit.old_end_position),
        fits(edit.new_end_position),
    ensures
        *final(tree) == edited_of(*old(tree), edit),
        language_of(*final(tree)) == language_of(*old(tree)),
{
    tree.edit(&tree_sitter::InputEdit {
        start_byte: edit.start_byte,
        old_end_byte: edit.old_end_byte,
        new_end_byte: edit.new_end_byte,
        start_position: tree_sitter::Point::new(edit.start_position.row, edit.start_position.column),
        old_end_position: tree_sitter::Point::new(edit.old_end_position.row, edit.old_end_position.column),
        new_end_position: tree_sitter::Point::new(edit.new_end_position.row, edit.new_end_position.column),
    });
}

/// `tree_sitter::Tree::clone`: the copy is the same tree.
pub assume_specification[ <tree_sitter::Tree as Clone>::clone ](tree: &tree_sitter::Tree) -> (r:
    tree_sitter::Tree)
    ensures
        r == *tree,
;

/// `tree_sitter::Node::descendant_count` of the root: how many nodes the tree has, the root
/// included.
#[verifier::external_body]
fn row_count(tree: &tree_sitter::Tree) -> (r: usize)
    ensures
        r == tree_rows(*tree).len(),
        0 < r,
{
    tree.root_node().descendant_count()
}

/// `tree_sitter::TreeCursor::goto_descendant` from the root, and what the node reached there says
/// of itself. Node 0 is the root itself.
#[verifier::external_body]
fn row_at(tree: &tree_sitter::Tree, i: usize) -> (r: Row)
    requires
        i < tree_rows(*tree).len(),
    ensures
        r@ == tree_rows(*tree)[i as int],
{
    let mut cursor = tree.walk();
    cursor.goto_descendant(i);
    let node = cursor.node();
    Row {
        kind: node.kind().to_string(),
        start: node.start_byte(),
        end: node.end_byte(),
        named: node.is_named(),
        missing: node.is_missing(),
        error: node.is_error(),
        has_error: node.has_error(),
        depth: cursor.depth(),
    }
}

/// Whether rows are those of one tree: the first, and it alone, is at the top.
pub open spec fn layered(rows: Seq<RowView>) -> bool {
    &&& rows.len() > 0
    &&& rows[0].depth == 0
    &&& forall|i: int| 0 < i < rows.len() ==> 0 < (#[trigger] rows[i]).depth
}

/// Which rows lie above row `i`.
pub open spec fn above(rows: Seq<RowView>, i: int) -> spec_fn(int) -> bool {
    |j: int| rows[j].depth < rows[i].depth
}

/// Which rows are not inside row `i`, when they follow it.
pub open spec fn outside(rows: Seq<RowView>, i: int) -> spec_fn(int) -> bool {
    |j: int| rows[j].depth <= rows[i].depth
}

/// The row that row `i` sits in: the last before it that lies above it; the root names itself.
pub open spec fn row_parent(rows: Seq<RowView>, i: int) -> int {
    match last_below(i, above(rows, i)) {
        Some(j) => j as int,
        None => 0,
    }
}

/// The first row after row `i` that is not inside it.
pub open spec fn row_past(rows: Seq<RowView>, i: int) -> int {
    match first_from(i + 1, rows.len() as int, outside(rows, i)) {
        Some(j) => j as int,
        None => rows.len() as int,
    }
}

/// Whether node `i` is the one that row `i` describes.
pub open spec fn is_row_node(node: Node, rows: Seq<RowView>, i: int) -> bool {
    &&& node.kind@ == rows[i].kind
    &&& node.start == rows[i].start
    &&& node.end == rows[i].end
    &&& node.named == rows[i].named
    &&& node.missing == rows[i].missing
    &&& node.error == rows[i].error
    &&& node.has_error == rows[i].has_error
    &&& node.parent == row_parent(rows, i)
    &&& node.past == row_past(rows, i)
}

/// Whether a tree is the one that rows describe.
pub open spec fn is_tree_of(tree: SyntaxTree, rows: Seq<RowView>) -> bool {
    tree.nodes@.len() == rows.len() && forall|i: int|
        0 <= i < rows.len() ==> is_row_node(#[trigger] tree.nodes@[i], rows, i)
}

pub open spec fn row_views(rows: Seq<Row>) -> Seq<RowView> {
    rows.map_values(|row: Row| row@)
}

proof fn lemma_row_past(rows: Seq<RowView>, i: int)
    requires
        0 <= i < rows.len(),
        rows.len() <= usize::MAX,
    ensures
        i < row_past(rows, i) <= rows.len(),
        forall|j: int| i < j < row_past(rows, i) ==> rows[i].depth < (#[trigger] rows[j]).depth,
        row_past(rows, i) < rows.len() ==> rows[row_past(rows, i)].depth <= rows[i].depth,
{
    lemma_first_from(i + 1, rows.len() as int, outside(rows, i));
    assert forall|j: int| i < j < row_past(rows, i) implies rows[i].depth < (
    #[trigger] rows[j]).depth by {
        assert(!outside(rows, i)(j));
    }
}

proof fn lemma_row_parent(rows: Seq<RowView>, i: int)
    requires
        layered(rows),
        0 < i < rows.len(),
        rows.len() <= usize::MAX,
    ensures
        0 <= row_parent(rows, i) < i,
        rows[row_parent(rows, i)].depth < rows[i].depth,
        forall|j: int|
            row_parent(rows, i) < j < i ==> rows[i].depth <= (#[trigger] rows[j]).depth,
{
    lemma_last_below(i, above(rows, i));
    assert(above(rows, i)(0));
    assert forall|j: int| row_parent(rows, i) < j < i implies rows[i].depth <= (
    #[trigger] rows[j]).depth by {
        assert(!above(rows, i)(j));
    }
}

/// The tree that layered rows describe is nested.
proof fn lemma_nested(nodes: Seq<Node>, rows: Seq<RowView>)
    requires
        layered(rows),
        rows.len() <= usize::MAX,
        nodes.len() == rows.len(),
        forall|i: int| 0 <= i < rows.len() ==> is_row_node(#[trigger] nodes[i], rows, i),
    ensures
        nested(nodes),
{
    assert(is_row_node(nodes[0], rows, 0));
    lemma_row_past(rows, 0);
    lemma_last_below(0, above(rows, 0));
    assert forall|i: int| 0 <= i < nodes.len() implies i < (#[trigger] nodes[i]).past
        <= nodes.len() by {
        lemma_row_past(rows, i);
    }
    assert forall|i: int| 0 < i < nodes.len() implies (#[trigger] nodes[i]).parent < i by {
        lemma_row_parent(rows, i);
    }
    assert forall|i: int| 0 < i < nodes.len() implies #[trigger] held(nodes, i) by {
        assert(is_row_node(nodes[i], rows, i));
        lemma_row_parent(rows, i);
        let parent = row_parent(rows, i);
        assert(is_row_node(nodes[parent], rows, parent));
        lemma_row_past(rows, i);
        lemma_row_past(rows, parent);
        let stop = row_past(rows, parent);
        if stop < row_past(rows, i) {
            if stop <= i {
                assert(rows[stop].depth >= rows[i].depth);
            } else {
                assert(rows[i].depth < rows[stop].depth);
            }
        }
    }
    assert forall|i: int, j: int|
        0 <= i < j < nodes.len() && j < nodes[i].past implies (#[trigger] nodes[j]).past <= (
    #[trigger] nodes[i]).past && nodes[j].parent >= i by {
        assert(is_row_node(nodes[i], rows, i));
        assert(is_row_node(nodes[j], rows, j));
        lemma_row_past(rows, i);
        lemma_row_past(rows, j);
        lemma_row_parent(rows, j);
        let stop = row_past(rows, i);
        assert(rows[i].depth < rows[j].depth);
        if stop < row_past(rows, j) {
            assert(rows[j].depth < rows[stop].depth);
        }
        if row_parent(rows, j) < i {
            assert(rows[j].depth <= rows[i].depth);
        }
    }
}

/// Whether rows are those of one tree.
fn is_layered(rows: &Vec<Row>) -> (r: bool)
    ensures
        r == layered(row_views(rows@)),
{
    let ghost views = row_views(rows@);
    if rows.len() == 0 || rows[0].depth != 0 {
        return false;
    }
    let mut i: usize = 1;
    while i < rows.len()
        invariant
            1 <= i <= rows@.len(),
            views == row_views(rows@),
            views.len() == rows@.len(),
            views[0].depth == 0,
            forall|j: int| 0 < j < i ==> 0 < (#[trigger] views[j]).depth,
        decreases rows.len() - i,
    {
        assert(views[i as int] == rows@[i as int]@);
        if rows[i].depth == 0 {
            return false;
        }
        i = i + 1;
    }
    true
}

/// The index each row's subtree ends at.
fn pasts(rows: &Vec<Row>) -> (r: Vec<usize>)
    requires
        rows@.len() > 0,
    ensures
        r@.len() == rows@.len(),
        forall|i: int| 0 <= i < r@.len() ==> #[trigger] r@[i] == row_past(row_views(rows@), i),
{
    let ghost views = row_views(rows@);
    let n = rows.len();
    let mut out: Vec<usize> = Vec::new();
    let mut fill: usize = 0;
    while fill < n
        invariant
            fill <= n,
            out@.len() == fill,
        decreases n - fill,
    {
        out.push(n);
        fill = fill + 1;
    }
    let mut k: usize = n;
    while k > 0
        invariant
            k <= n,
            n == rows@.len(),
            out@.len() == n,
            views == row_views(rows@),
            forall|i: int| k <= i < n ==> #[trigger] out@[i] == row_past(views, i),
        decreases k,
    {
        let i: usize = k - 1;
        let ghost fits = outside(views, i as int);
        let mut j: usize = k;
        while j < n && rows[j].depth > rows[i].depth
            invariant
                i < j <= n,
                k == i + 1,
                n == rows@.len(),
                out@.len() == n,
                views == row_views(rows@),
                fits == outside(views, i as int),
                forall|i: int| k <= i < n ==> #[trigger] out@[i] == row_past(views, i),
                forall|m: int| i < m < j ==> views[i as int].depth < (#[trigger] views[m]).depth,
            decreases n - j,
        {
            proof {
                lemma_row_past(views, j as int);
                assert(views[j as int] == rows@[j as int]@);
                assert(views[i as int] == rows@[i as int]@);
            }
            j = out[j];
        }
        proof {
            lemma_row_past(views, i as int);
            let found = row_past(views, i as int);
            assert(views[i as int] == rows@[i as int]@);
            if j < n {
                assert(views[j as int] == rows@[j as int]@);
            }
            if found < j {
                assert(views[i as int].depth < views[found].depth);
            } else if j < found {
                assert(views[i as int].depth < views[j as int].depth);
            }
        }
        out.set(i, j);
        k = i;
    }
    out
}

/// The tree that rows describe; none where they are not those of one tree.
pub fn tree_of(rows: Vec<Row>) -> (r: Option<SyntaxTree>)
    ensures
        match r {
            Some(tree) => layered(row_views(rows@)) && tree.wf() && is_tree_of(
                tree,
                row_views(rows@),
            ),
            None => !layered(row_views(rows@)),
        },
{
    let ghost views = row_views(rows@);
    if !is_layered(&rows) {
        return None;
    }
    let ends = pasts(&rows);
    let mut nodes: Vec<Node> = Vec::new();
    let n = rows.len();
    let mut i: usize = 0;
    while i < n
        invariant
            i <= n,
            n == rows@.len(),
            views == row_views(rows@),
            layered(views),
            ends@.len() == rows@.len(),
            forall|i: int| 0 <= i < ends@.len() ==> #[trigger] ends@[i] == row_past(views, i),
            nodes@.len() == i,
            forall|j: int| 0 <= j < i ==> is_row_node(#[trigger] nodes@[j], views, j),
        decreases n - i,
    {
        let mut parent: usize = 0;
        proof {
            assert(views[i as int] == rows@[i as int]@);
            if i == 0 {
                lemma_last_below(0, above(views, 0));
            }
        }
        if i > 0 {
            parent = i - 1;
            while rows[parent].depth >= rows[i].depth
                invariant
                    0 < i < n,
                    n == rows@.len(),
                    parent < i,
                    nodes@.len() == i,
                    views == row_views(rows@),
                    layered(views),
                    forall|j: int| 0 <= j < i ==> is_row_node(#[trigger] nodes@[j], views, j),
                    forall|m: int|
                        parent < m < i ==> views[i as int].depth <= (#[trigger] views[m]).depth,
                decreases parent,
            {
                proof {
                    assert(views[i as int] == rows@[i as int]@);
                    assert(views[parent as int] == rows@[parent as int]@);
                    assert(is_row_node(nodes@[parent as int], views, parent as int));
                    lemma_row_parent(views, parent as int);
                }
                parent = nodes[parent].parent;
            }
            proof {
                assert(views[i as int] == rows@[i as int]@);
                assert(views[parent as int] == rows@[parent as int]@);
                lemma_row_parent(views, i as int);
                let found = row_parent(views, i as int);
                if found < parent {
                    assert(views[i as int].depth <= views[parent as int].depth);
                } else if parent < found {
                    assert(views[i as int].depth <= views[found].depth);
                }
            }
        }
        let row = &rows[i];
        nodes.push(
            Node {
                kind: row.kind.clone(),
                start: row.start,
                end: row.end,
                named: row.named,
                missing: row.missing,
                error: row.error,
                has_error: row.has_error,
                parent,
                past: ends[i],
            },
        );
        i = i + 1;
    }
    let tree = SyntaxTree { nodes };
    proof {
        lemma_nested(tree.nodes@, views);
        tree.lemma_wf();
    }
    Some(tree)
}

/// Whether a text has, in `parsed`, a tree that can be read.
pub open spec fn readable(text: Seq<char>, parsed: Option<tree_sitter::Tree>) -> bool {
    &&& encode_utf8(text).len() <= LONGEST_TEXT
    &&& parsed is Some
    &&& layered(tree_rows(parsed->0))
}

/// Whether `tree` is what parsing `text` with a grammar gives.
pub open spec fn parses_to(
    language: tree_sitter::Language,
    text: Seq<char>,
    tree: Option<SyntaxTree>,
) -> bool {
    match tree {
        Some(tree) => {
            &&& readable(text, parse_of(language, text, None))
            &&& tree.wf()
            &&& is_tree_of(tree, tree_rows(parse_of(language, text, None)->0))
        },
        None => !readable(text, parse_of(language, text, None)),
    }
}

/// Parses a text with a grammar, given the tree of an earlier text where there is one, and reads
/// the tree. There is none where the text is longer than the parser can take, or the grammar of a
/// version that it cannot run.
pub(crate) fn parse_after(
    language: &tree_sitter::Language,
    text: &str,
    earlier: Option<&tree_sitter::Tree>,
) -> (r: Option<(tree_sitter::Tree, SyntaxTree)>)
    requires
        earlier matches Some(tree) ==> language_of(*tree) == *language,
    ensures
        match r {
            Some((parsed, tree)) => {
                &&& parse_of(*language, text@, earlier_tree(earlier)) == Some(parsed)
                &&& readable(text@, Some(parsed))
                &&& tree.wf()
                &&& is_tree_of(tree, tree_rows(parsed))
            },
            None => !readable(text@, parse_of(*language, text@, earlier_tree(earlier))),
        },
{
    if text.as_bytes().len() > LONGEST_TEXT {
        return None;
    }
    match parse_text(language, text, earlier) {
        Some(parsed) => {
            let n = row_count(&parsed);
            let mut rows: Vec<Row> = Vec::new();
            let mut i: usize = 0;
            while i < n
                invariant
                    i <= n,
                    n == tree_rows(parsed).len(),
                    row_views(rows@) == tree_rows(parsed).subrange(0, i as int),
                decreases n - i,
            {
                let ghost before = row_views(rows@);
                let row = row_at(&parsed, i);
                rows.push(row);
                assert(row_views(rows@) =~= before.push(row@));
                assert(row_views(rows@) =~= tree_rows(parsed).subrange(0, i + 1));
                i = i + 1;
            }
            assert(tree_rows(parsed).subrange(0, n as int) =~= tree_rows(parsed));
            match tree_of(rows) {
                Some(tree) => Some((parsed, tree)),
                None => None,
            }
        },
        None => None,
    }
}

/// Parses a text with a grammar, on its own. There is no tree where the text is longer than the
/// parser can take, or the grammar of a version that it cannot run.
pub fn parse(language: &tree_sitter::Language, text: &str) -> (r: Option<SyntaxTree>)
    ensures
        parses_to(*language, text@, r),
{
    match parse_after(language, text, None) {
        Some((_, tree)) => Some(tree),
        None => None,
    }
}

} // verus!
