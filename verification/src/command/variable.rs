//! A name bound to a value that says nothing about the arguments it takes.
use vstd::prelude::*;
use std::sync::Arc;
use crate::command::reader::{block_kind, is_block};
use crate::command::scheme::{source_of, text};
use crate::command::{Value, code_block, fenced};
use crate::grammar::{parse, parses_to};
use crate::line_struct::Span;
use crate::syntax::{Node, SyntaxTree, children_of, lemma_children, nested};
use crate::text::{can_cut, chars_of, holds, piece, same, slice};

verus! {

/// A value of no more than this many lines is shown in full on hover; a longer one is reduced to
/// its outline.
pub const LINES_SHOWN_IN_FULL: usize = 5;

/// What a name is bound to when nothing says what arguments it takes: `\foo` substitutes its value
/// and consumes nothing.
///
/// A name known only as a name carries no value and documents nothing.
#[derive(Debug)]
pub struct Variable {
    pub name: String,
    pub value: Option<Value>,
}

/// How many lines a text has. The last one may do without its line end.
pub open spec fn line_count(text: Seq<char>) -> nat
    decreases text.len(),
{
    if text.len() == 0 {
        0
    } else if text.last() == '\n' {
        1 + line_ends(text.drop_last())
    } else {
        1 + line_ends(text)
    }
}

/// How many line ends a text has.
pub open spec fn line_ends(text: Seq<char>) -> nat
    decreases text.len(),
{
    if text.len() == 0 {
        0
    } else if text.last() == '\n' {
        1 + line_ends(text.drop_last())
    } else {
        line_ends(text.drop_last())
    }
}

/// Whether `text` has more than `most` lines.
fn is_longer_than(text: &str, most: usize) -> (r: bool)
    ensures
        r == (line_count(text@) > most),
{
    let chars = chars_of(text);
    if chars.len() == 0 {
        return false;
    }
    let mut ends: usize = 0;
    let mut k: usize = 0;
    let stop: usize = if chars[chars.len() - 1] == '\n' {
        chars.len() - 1
    } else {
        chars.len()
    };
    while k < stop
        invariant
            k <= stop <= chars@.len(),
            chars@ == text@,
            ends == line_ends(text@.subrange(0, k as int)),
            ends <= k,
        decreases stop - k,
    {
        assert(text@.subrange(0, k + 1).drop_last() =~= text@.subrange(0, k as int));
        if chars[k] == '\n' {
            ends = ends + 1;
        }
        k = k + 1;
    }
    assert(text@.subrange(0, text@.len() as int) =~= text@);
    assert(text@.subrange(0, text@.len() - 1) =~= text@.drop_last());
    ends >= most
}

/// The commands that say how to read the music they wrap rather than adding anything of their own.
pub open spec fn wraps(word: Seq<char>) -> bool {
    ||| word == "\\transpose"@
    ||| word == "\\relative"@
    ||| word == "\\fixed"@
    ||| word == "\\notemode"@
    ||| word == "\\notes"@
    ||| word == "\\chordmode"@
    ||| word == "\\chords"@
    ||| word == "\\drummode"@
    ||| word == "\\drums"@
    ||| word == "\\figuremode"@
    ||| word == "\\figures"@
    ||| word == "\\lyricmode"@
    ||| word == "\\lyrics"@
}

/// Whether `word` says how to read the music it wraps.
pub fn is_wrapper(word: &str) -> (r: bool)
    ensures
        r == wraps(word@),
{
    same(word, "\\transpose") || same(word, "\\relative") || same(word, "\\fixed") || same(
        word,
        "\\notemode",
    ) || same(word, "\\notes") || same(word, "\\chordmode") || same(word, "\\chords") || same(
        word,
        "\\drummode",
    ) || same(word, "\\drums") || same(word, "\\figuremode") || same(word, "\\figures") || same(
        word,
        "\\lyricmode",
    ) || same(word, "\\lyrics")
}

/// Whether children `from..to` of node `i` are music under a wrapper: the wrapper first, its
/// arguments, and one block last with nothing following it.
pub open spec fn wrapped_music(nodes: Seq<Node>, src: Seq<char>, i: int, from: int, to: int) -> bool {
    let row = children_of(nodes, i);
    &&& from < to
    &&& wraps(source_of(nodes, src, row[from] as int))
    &&& block_kind(nodes[row[to - 1] as int].kind@)
    &&& forall|k: int|
        from <= k < to - 1 ==> !block_kind(nodes[(#[trigger] row[k]) as int].kind@)
}

/// One space where there is anything between two nodes.
pub open spec fn gap_between(end: usize, start: usize) -> Seq<char> {
    if end < start {
        " "@
    } else {
        ""@
    }
}

/// Children `from..to` of node `i` on one line, with the contents of every block elided and any
/// node that spans lines of its own replaced outright.
pub open spec fn sketched_row(
    nodes: Seq<Node>,
    src: Seq<char>,
    i: int,
    from: int,
    to: int,
) -> Seq<char>
    decreases nodes[i].past - i, 0int, to - from,
    when nested(nodes) && 0 <= i < nodes.len() && 0 <= from && to <= children_of(nodes, i).len()
    via sketched_row_decreases
{
    let row = children_of(nodes, i);
    if to <= from {
        Seq::empty()
    } else {
        let node = row[to - 1] as int;
        let before = if from < to - 1 {
            sketched_row(nodes, src, i, from, to - 1) + gap_between(
                nodes[row[to - 2] as int].end,
                nodes[node].start,
            )
        } else {
            Seq::empty()
        };
        before + sketched(nodes, src, node)
    }
}

/// Node `i` on one line. Of a block only the delimiters are shown, and the one wrapper it may hold.
pub open spec fn sketched(nodes: Seq<Node>, src: Seq<char>, i: int) -> Seq<char>
    decreases nodes[i].past - i, 1int, 0int,
    when nested(nodes) && 0 <= i < nodes.len()
{
    let row = children_of(nodes, i);
    let last = row.len() - 1;
    if block_kind(nodes[i].kind@) && last >= 1 {
        source_of(nodes, src, row[0] as int) + " "@ + (if wrapped_music(nodes, src, i, 1, last) {
            sketched_row(nodes, src, i, 1, last)
        } else {
            "…"@
        }) + " "@ + source_of(nodes, src, row[last] as int)
    } else if source_of(nodes, src, i).contains('\n') {
        "…"@
    } else {
        source_of(nodes, src, i)
    }
}

#[via_fn]
proof fn sketched_row_decreases(nodes: Seq<Node>, src: Seq<char>, i: int, from: int, to: int) {
    lemma_smaller_children(nodes, i);
    if from < to {
        assert(i < children_of(nodes, i)[to - 1] < nodes.len());
    }
}

/// A child is a smaller subtree.
pub proof fn lemma_smaller_children(nodes: Seq<Node>, i: int)
    requires
        nested(nodes),
        0 <= i < nodes.len(),
    ensures
        forall|k: int|
            0 <= k < children_of(nodes, i).len() ==> {
                let c = #[trigger] children_of(nodes, i)[k];
                i < c < nodes.len() && 0 <= nodes[c as int].past - c < nodes[i].past - i
            },
{
    lemma_children(nodes, i);
    assert(i < nodes[i].past <= nodes.len());
    assert forall|k: int| 0 <= k < children_of(nodes, i).len() implies {
        let c = #[trigger] children_of(nodes, i)[k];
        i < c < nodes.len() && 0 <= nodes[c as int].past - c < nodes[i].past - i
    } by {
        let c = children_of(nodes, i)[k] as int;
        assert(i < c < nodes[i].past);
        assert(nodes[c].past <= nodes[i].past);
        assert(c < nodes[c].past);
    }
}

/// A one-line sketch of a text: everything but the contents of its blocks. `None` when the sketch
/// would be nothing but an ellipsis.
pub open spec fn outlined(nodes: Seq<Node>, src: Seq<char>) -> Option<Seq<char>> {
    let sketch = sketched_row(nodes, src, 0, 0, children_of(nodes, 0).len() as int);
    if sketch == "…"@ {
        None
    } else {
        Some(sketch)
    }
}

/// Whether children `from..to` of node `i`, which are `row`, are music under a wrapper.
fn is_wrapped_music(tree: &SyntaxTree, src: &str, row: &Vec<usize>, from: usize, to: usize, Ghost(
    i,
): Ghost<int>) -> (r: bool)
    requires
        row@ == children_of(tree.nodes@, i),
        forall|k: int| 0 <= k < row@.len() ==> (#[trigger] row@[k]) < tree.nodes@.len(),
        to <= row@.len(),
    ensures
        r == wrapped_music(tree.nodes@, src@, i, from as int, to as int),
{
    if from >= to || !is_wrapper(text(tree, row[from], src)) || !is_block(
        tree.nodes[row[to - 1]].kind.as_str(),
    ) {
        return false;
    }
    let mut k: usize = from;
    while k < to - 1
        invariant
            from <= k <= to - 1,
            to <= row@.len(),
            row@ == children_of(tree.nodes@, i),
            forall|k: int| 0 <= k < row@.len() ==> (#[trigger] row@[k]) < tree.nodes@.len(),
            forall|j: int|
                from <= j < k ==> !block_kind(tree.nodes@[(#[trigger] row@[j]) as int].kind@),
        decreases to - 1 - k,
    {
        if is_block(tree.nodes[row[k]].kind.as_str()) {
            return false;
        }
        k = k + 1;
    }
    true
}

/// Renders children `from..to` of node `i` on one line.
fn elide(tree: &SyntaxTree, src: &str, i: usize, from: usize, to: usize) -> (r: String)
    requires
        tree.wf(),
        i < tree.nodes@.len(),
        from <= to <= children_of(tree.nodes@, i as int).len(),
    ensures
        r@ == sketched_row(tree.nodes@, src@, i as int, from as int, to as int),
    decreases tree.nodes@[i as int].past - i, 0int,
{
    proof {
        tree.lemma_wf();
        lemma_smaller_children(tree.nodes@, i as int);
    }
    let row = tree.children(i);
    let mut out = String::new();
    let mut k: usize = from;
    while k < to
        invariant
            tree.wf(),
            nested(tree.nodes@),
            i < tree.nodes@.len(),
            row@ == children_of(tree.nodes@, i as int),
            to <= row@.len(),
            from <= k <= to,
            forall|k: int| 0 <= k < row@.len() ==> (#[trigger] row@[k]) < tree.nodes@.len(),
            forall|k: int|
                0 <= k < row@.len() ==> {
                    let c = #[trigger] children_of(tree.nodes@, i as int)[k];
                    i < c < tree.nodes@.len() && 0 <= tree.nodes@[c as int].past - c
                        < tree.nodes@[i as int].past - i
                },
            out@ == sketched_row(tree.nodes@, src@, i as int, from as int, k as int),
        decreases to - k,
    {
        let ghost before = out@;
        let c = row[k];
        if k > from {
            if tree.nodes[row[k - 1]].end < tree.nodes[c].start {
                out.append(" ");
            } else {
                out.append("");
            }
        }
        assert(c == children_of(tree.nodes@, i as int)[k as int]);
        let piece = elide_node(tree, src, c);
        out.append(piece.as_str());
        assert(out@ =~= sketched_row(tree.nodes@, src@, i as int, from as int, k + 1));
        k = k + 1;
    }
    out
}

/// Renders node `i` on one line.
fn elide_node(tree: &SyntaxTree, src: &str, i: usize) -> (r: String)
    requires
        tree.wf(),
        i < tree.nodes@.len(),
    ensures
        r@ == sketched(tree.nodes@, src@, i as int),
    decreases tree.nodes@[i as int].past - i, 1int,
{
    proof {
        tree.lemma_wf();
    }
    let row = tree.children(i);
    if is_block(tree.nodes[i].kind.as_str()) && row.len() >= 2 {
        let last = row.len() - 1;
        let mut out = text(tree, row[0], src).to_string();
        out.append(" ");
        if is_wrapped_music(tree, src, &row, 1, last, Ghost(i as int)) {
            let inner = elide(tree, src, i, 1, last);
            out.append(inner.as_str());
        } else {
            out.append("…");
        }
        out.append(" ");
        out.append(text(tree, row[last], src));
        return out;
    }
    let whole = text(tree, i, src);
    if holds(whole, '\n') {
        "…".to_string()
    } else {
        whole.to_string()
    }
}

/// A one-line sketch of the text that `tree` was parsed from; `None` when it has no shape to show.
pub fn outline(tree: &SyntaxTree, src: &str) -> (r: Option<String>)
    requires
        tree.wf(),
    ensures
        match r {
            Some(sketch) => outlined(tree.nodes@, src@) == Some(sketch@),
            None => outlined(tree.nodes@, src@) is None,
        },
{
    proof {
        tree.lemma_root();
    }
    let count = tree.children(0).len();
    let sketch = elide(tree, src, 0, 0, count);
    if same(sketch.as_str(), "…") {
        None
    } else {
        Some(sketch)
    }
}

/// The text of a value, where its place lies in its source.
pub open spec fn value_text(value: Value) -> Option<Seq<char>> {
    if can_cut(value.source@, value.span.start as int, value.span.end as int) {
        Some(piece(value.source@, value.span.start as int, value.span.end as int))
    } else {
        None
    }
}

/// What hover shows of a value called `name` whose text parses to `tree`: the value in full where
/// it is short enough to read at a glance, otherwise its outline. `None` when the value is both
/// long and shapeless.
pub open spec fn summary(name: Seq<char>, value: Value, tree: Option<SyntaxTree>) -> Option<
    Seq<char>,
> {
    match value_text(value) {
        Some(text) => if line_count(text) <= LINES_SHOWN_IN_FULL {
            Some(fenced(name + " = "@ + text))
        } else {
            match tree {
                Some(tree) => match outlined(tree.nodes@, text) {
                    Some(sketch) => Some(fenced(name + " = "@ + sketch)),
                    None => None,
                },
                None => None,
            }
        },
        None => None,
    }
}

/// The text of a value, where its place lies in its source.
fn text_of(value: &Value) -> (r: Option<&str>)
    ensures
        match r {
            Some(text) => value_text(*value) == Some(text@),
            None => value_text(*value) is None,
        },
{
    let source = value.source.as_str();
    let start = value.span.start;
    let end = value.span.end;
    if start <= end && source.is_char_boundary(start) && source.is_char_boundary(end) {
        Some(slice(source, start, end))
    } else {
        None
    }
}

fn bound(name: &str, shown: &str) -> (r: String)
    ensures
        r@ == fenced(name@ + " = "@ + shown@),
{
    let mut code = name.to_string();
    code.append(" = ");
    code.append(shown);
    code_block(code.as_str())
}

/// Renders `name = value` for hover, given the tree that the value's text parses to.
pub fn summarise(name: &str, value: &Value, tree: &Option<SyntaxTree>) -> (r: Option<String>)
    requires
        *tree is Some ==> (*tree)->0.wf(),
    ensures
        match r {
            Some(shown) => summary(name@, *value, *tree) == Some(shown@),
            None => summary(name@, *value, *tree) is None,
        },
{
    match text_of(value) {
        Some(text) => if !is_longer_than(text, LINES_SHOWN_IN_FULL) {
            Some(bound(name, text))
        } else {
            match tree {
                Some(tree) => match outline(tree, text) {
                    Some(sketch) => Some(bound(name, sketch.as_str())),
                    None => None,
                },
                None => None,
            }
        },
        None => None,
    }
}

/// Whether `tree` is what the text of a value parses to.
pub open spec fn value_parses(
    language: tree_sitter::Language,
    value: Value,
    tree: Option<SyntaxTree>,
) -> bool {
    match value_text(value) {
        Some(text) => parses_to(language, text, tree),
        None => true,
    }
}

/// Whether `shown` is what hover shows of a value, read with a grammar.
pub open spec fn is_summary(
    shown: Option<String>,
    name: Seq<char>,
    value: Value,
    language: tree_sitter::Language,
) -> bool {
    exists|tree: Option<SyntaxTree>|
        {
            &&& #[trigger] value_parses(language, value, tree)
            &&& match shown {
                Some(shown) => summary(name, value, tree) == Some(shown@),
                None => summary(name, value, tree) is None,
            }
        }
}

/// What hover shows of a value. The value's text is parsed again: its place outlives by far the
/// tree it was read from.
pub fn describe_value(name: &str, value: &Value, language: &tree_sitter::Language) -> (r: Option<
    String,
>)
    ensures
        is_summary(r, name@, *value, *language),
{
    match text_of(value) {
        Some(text) => {
            let tree = parse(language, text);
            let shown = summarise(name, value, &tree);
            assert(value_parses(*language, *value, tree));
            shown
        },
        None => {
            let ghost nothing: Option<SyntaxTree> = None;
            assert(value_parses(*language, *value, nothing));
            None
        },
    }
}

impl Variable {
    /// A name with nothing behind it but the fact that it exists.
    pub fn new(name: &str) -> (r: Self)
        ensures
            r.name@ == name@,
            r.value is None,
    {
        Self { name: name.to_string(), value: None }
    }

    /// A name bound to the value written at `span` in `source`.
    pub fn bound_to(name: &str, source: Arc<String>, span: Span) -> (r: Self)
        ensures
            r.name@ == name@,
            r.value is Some,
            (r.value->0).source@ == source@,
            (r.value->0).span == span,
    {
        Self { name: name.to_string(), value: Some(Value { source, span }) }
    }

    /// What hover shows of the variable: nothing, where no value is known.
    pub fn documentation(&self, language: &tree_sitter::Language) -> (r: Option<String>)
        ensures
            match self.value {
                Some(value) => is_summary(r, self.name@, value, *language),
                None => r is None,
            },
    {
        match &self.value {
            Some(value) => describe_value(self.name.as_str(), value, language),
            None => None,
        }
    }
}

} // verus!
