//! Reading the arguments of a command out of the nodes that follow it.
use vstd::prelude::*;
use vstd::utf8::*;
use vstd::string::StringExecFns;
use crate::command::{
    Arg, ArgKind, ArgView, Param, arg_view, arg_views, lemma_arg_views, lemma_arg_views_push,
    text_views,
};
use crate::line_struct::Span;
use crate::note_names::{NoteLanguage, NoteName, note_among};
use crate::notes::Pitch;
use crate::syntax::{Node, SyntaxTree, children_of, span_of};
use crate::text::{cut, cut_of, same};

verus! {

/// A run of sibling nodes to read arguments from, with the source they were parsed from and the
/// note-name language in force.
pub struct Run<'a> {
    pub tree: &'a SyntaxTree,
    pub children: &'a Vec<usize>,
    pub src: &'a str,
    pub language: &'a NoteLanguage,
}

/// What a [`Run`] holds: the nodes of the whole tree, those of the run, the source, and the words
/// for notes.
pub struct RunView {
    pub nodes: Seq<Node>,
    pub children: Seq<usize>,
    pub src: Seq<char>,
    pub notes: Seq<NoteName>,
}

impl<'a> View for Run<'a> {
    type V = RunView;

    open spec fn view(&self) -> RunView {
        RunView {
            nodes: self.tree.nodes@,
            children: self.children@,
            src: self.src@,
            notes: self.language.notes@,
        }
    }
}

impl<'a> Run<'a> {
    /// The nodes are the tree's, and few enough to count octave marks among them.
    pub open spec fn wf(self) -> bool {
        &&& self.tree.wf()
        &&& self.children@.len() < i32::MAX
        &&& forall|k: int|
            0 <= k < self.children@.len() ==> (#[trigger] self.children@[k])
                < self.tree.nodes@.len()
    }
}

impl RunView {
    pub open spec fn node(self, k: int) -> Node {
        self.nodes[self.children[k] as int]
    }

    pub open spec fn has(self, k: int) -> bool {
        0 <= k < self.children.len()
    }

    /// Whether the node at `k` is there and of kind `kind`.
    pub open spec fn is_kind(self, k: int, kind: Seq<char>) -> bool {
        self.has(k) && self.node(k).kind@ == kind
    }

    pub open spec fn place(self, k: int) -> Span {
        span_of(self.nodes, self.children[k] as int)
    }

    /// The source of the node at `k`.
    pub open spec fn source(self, k: int) -> Seq<char> {
        cut_of(self.src, self.node(k).start as int, self.node(k).end as int)
    }

    /// Whether the node at `k` is the punctuation `text`.
    pub open spec fn is_mark(self, k: int, text: Seq<char>) -> bool {
        self.is_kind(k, "punctuation"@) && self.source(k) == text
    }
}

/// The value of a run of decimal digits; none where another character stands among them.
pub open spec fn digits_value(text: Seq<char>) -> Option<nat>
    decreases text.len(),
{
    if text.len() == 0 {
        Some(0)
    } else {
        match digits_value(text.drop_last()) {
            Some(n) => if '0' <= text.last() <= '9' {
                Some(10 * n + (text.last() as nat - 48) as nat)
            } else {
                None
            },
            None => None,
        }
    }
}

/// The unsigned number `text` spells, with or without a leading `+`; none where it spells none
/// that fits 32 bits.
pub open spec fn number_of(text: Seq<char>) -> Option<u32> {
    let digits = if text.len() > 0 && text[0] == '+' {
        text.drop_first()
    } else {
        text
    };
    if digits.len() == 0 {
        None
    } else {
        match digits_value(digits) {
            Some(n) => if n <= u32::MAX {
                Some(n as u32)
            } else {
                None
            },
            None => None,
        }
    }
}

proof fn lemma_digits_prefix(text: Seq<char>, k: int)
    requires
        0 <= k <= text.len(),
        digits_value(text) is Some,
    ensures
        digits_value(text.subrange(0, k)) is Some,
        digits_value(text.subrange(0, k))->0 <= digits_value(text)->0,
    decreases text.len(),
{
    if k == text.len() {
        assert(text.subrange(0, k) =~= text);
    } else {
        lemma_digits_prefix(text.drop_last(), k);
        assert(text.drop_last().subrange(0, k) =~= text.subrange(0, k));
    }
}

/// Reads an unsigned number.
pub fn parse_number(text: &str) -> (r: Option<u32>)
    ensures
        r == number_of(text@),
{
    let chars = crate::text::chars_of(text);
    let start: usize = if chars.len() > 0 && chars[0] == '+' {
        1
    } else {
        0
    };
    let ghost digits = chars@.subrange(start as int, chars@.len() as int);
    assert(start == 1 ==> digits =~= text@.drop_first());
    assert(start == 0 ==> digits =~= text@);
    if start == chars.len() {
        return None;
    }
    let mut value: u64 = 0;
    let mut i: usize = start;
    assert(digits.subrange(0, 0) =~= Seq::<char>::empty());
    while i < chars.len()
        invariant
            start <= i <= chars@.len(),
            digits == chars@.subrange(start as int, chars@.len() as int),
            digits.len() > 0,
            number_of(text@) == (match digits_value(digits) {
                Some(n) => if n <= u32::MAX {
                    Some(n as u32)
                } else {
                    None
                },
                None => None,
            }),
            digits_value(digits.subrange(0, i - start)) == Some(value as nat),
            value <= u32::MAX,
        decreases chars.len() - i,
    {
        let c = chars[i];
        proof {
            let next = digits.subrange(0, i - start + 1);
            assert(next.drop_last() =~= digits.subrange(0, i - start));
            assert(next.last() == c);
            if digits_value(digits) is Some {
                lemma_digits_prefix(digits, i - start + 1);
            }
        }
        if c < '0' || '9' < c {
            return None;
        }
        value = 10 * value + (c as u64 - 48);
        if value > u32::MAX as u64 {
            return None;
        }
        i = i + 1;
    }
    assert(digits.subrange(0, chars@.len() - start) =~= digits);
    Some(value as u32)
}

/// The number a node spells, or 0.
pub open spec fn number_or_zero(text: Seq<char>) -> u32 {
    match number_of(text) {
        Some(n) => n,
        None => 0,
    }
}

/// Whether a node kind is a music block: a `{ … }` expression or a `<< … >>` parallel-music
/// block.
pub open spec fn block_kind(kind: Seq<char>) -> bool {
    kind == "expression_block"@ || kind == "parallel_music"@
}

pub fn is_block(kind: &str) -> (r: bool)
    ensures
        r == block_kind(kind@),
{
    same(kind, "expression_block") || same(kind, "parallel_music")
}

/// Whether `kind` is a node that some more specific [`ArgKind`] would itself consume.
pub open spec fn typed_shape(kind: Seq<char>) -> bool {
    block_kind(kind) || kind == "symbol"@ || kind == "chord"@ || kind == "fraction"@
}

pub fn looks_like_a_typed_shape(kind: &str) -> (r: bool)
    ensures
        r == typed_shape(kind@),
{
    is_block(kind) || same(kind, "symbol") || same(kind, "chord") || same(kind, "fraction")
}

/// Just past the nodes from `k` on that each begin where the one before ended, the first of them
/// at `end`; and where the last of them ends.
pub open spec fn adjacent(run: RunView, k: int, end: usize) -> (int, usize)
    decreases run.children.len() - k,
{
    if run.has(k) && run.node(k).start == end {
        adjacent(run, k + 1, run.node(k).end)
    } else {
        (k, end)
    }
}

/// The braceless note or chord at `i`: its leading node and those butting against it.
pub open spec fn single_music_at(run: RunView, i: int) -> Option<(ArgView, int)> {
    if run.is_kind(i, "symbol"@) || run.is_kind(i, "chord"@) {
        let (next, end) = adjacent(run, i + 1, run.node(i).end);
        Some((ArgView::Music { span: Span { start: run.node(i).start, end } }, next))
    } else {
        None
    }
}

/// The further numbers of a list, from the comma at `k` on: the numbers, where the list ends, and
/// the first node past it.
pub open spec fn more_numbers(run: RunView, k: int, end: usize) -> (Seq<u32>, usize, int)
    decreases run.children.len() - k,
{
    if run.is_mark(k, ","@) && run.is_kind(k + 1, "unsigned_integer"@) {
        let (values, last, next) = more_numbers(run, k + 2, run.node(k + 1).end);
        (seq![number_or_zero(run.source(k + 1))] + values, last, next)
    } else {
        (Seq::empty(), end, k)
    }
}

/// The comma-separated numbers at `i`.
pub open spec fn number_list_at(run: RunView, i: int) -> Option<(ArgView, int)> {
    if run.is_kind(i, "unsigned_integer"@) {
        let (values, end, next) = more_numbers(run, i + 1, run.node(i).end);
        Some(
            (
                ArgView::NumberList {
                    span: Span { start: run.node(i).start, end },
                    values: seq![number_or_zero(run.source(i))] + values,
                },
                next,
            ),
        )
    } else {
        None
    }
}

/// Octave marks from `k` on: the net shift, and the first node past them. Reminders (`!`, `?`)
/// count among them and shift nothing, where `reminders` says so.
pub open spec fn marks_from(run: RunView, k: int, reminders: bool) -> (int, int)
    decreases run.children.len() - k,
{
    if run.is_mark(k, "'"@) {
        let (shift, next) = marks_from(run, k + 1, reminders);
        (shift + 1, next)
    } else if run.is_mark(k, ","@) {
        let (shift, next) = marks_from(run, k + 1, reminders);
        (shift - 1, next)
    } else if reminders && (run.is_mark(k, "!"@) || run.is_mark(k, "?"@)) {
        marks_from(run, k + 1, reminders)
    } else {
        (0, k)
    }
}

/// Octave marks and an optional octave check from `k` on: the net shift, the checked octave if a
/// check is there, and the first node past them.
pub open spec fn octave_marks_at(run: RunView, k: int) -> (int, Option<int>, int) {
    let (shift, next) = marks_from(run, k, true);
    if run.is_mark(next, "="@) {
        let (checked, past) = marks_from(run, next + 1, false);
        (shift, Some(checked - 1), past)
    } else {
        (shift, None, next)
    }
}

/// The pitch at `i`: a note name of the language, its marks and its check.
pub open spec fn pitch_at(run: RunView, i: int) -> Option<(ArgView, int)> {
    if run.is_kind(i, "symbol"@) {
        match note_among(run.notes, run.source(i)) {
            Some((note_name, alteration)) => {
                let (shift, check, next) = octave_marks_at(run, i + 1);
                let octave = match check {
                    Some(octave) => octave,
                    None => shift - 1,
                };
                Some(
                    (
                        ArgView::Pitch {
                            span: Span { start: run.node(i).start, end: run.node(next - 1).end },
                            pitch: Pitch { note_name, octave: octave as i32, alteration },
                        },
                        next,
                    ),
                )
            },
            None => None,
        }
    } else {
        None
    }
}

/// The first of `row` that is a named node of kind `kind`.
pub open spec fn first_named(nodes: Seq<Node>, row: Seq<usize>, kind: Seq<char>) -> Option<usize>
    decreases row.len(),
{
    if row.len() == 0 {
        None
    } else if nodes[row[0] as int].named && nodes[row[0] as int].kind@ == kind {
        Some(row[0])
    } else {
        first_named(nodes, row.drop_first(), kind)
    }
}

/// The first run of plain text inside a string node's quotes, as it is written; none where it holds
/// no plain text.
pub open spec fn fragment_of(nodes: Seq<Node>, src: Seq<char>, i: int) -> Option<Seq<char>> {
    match first_named(nodes, children_of(nodes, i), "string_fragment"@) {
        Some(c) => Some(cut_of(src, nodes[c as int].start as int, nodes[c as int].end as int)),
        None => None,
    }
}

/// The string, or the bare word standing in for one, at `i`.
pub open spec fn string_at(run: RunView, i: int) -> Option<Seq<char>> {
    if run.is_kind(i, "string"@) {
        match fragment_of(run.nodes, run.src, run.children[i] as int) {
            Some(text) => Some(text),
            None => Some(Seq::empty()),
        }
    } else if run.is_kind(i, "symbol"@) {
        Some(run.source(i))
    } else {
        None
    }
}

/// The words among a row of nodes: the source of each `symbol`.
pub open spec fn words_among(nodes: Seq<Node>, src: Seq<char>, row: Seq<usize>) -> Seq<Seq<char>>
    decreases row.len(),
{
    if row.len() == 0 {
        Seq::empty()
    } else {
        let rest = words_among(nodes, src, row.drop_first());
        let node = nodes[row[0] as int];
        if node.kind@ == "symbol"@ {
            seq![cut_of(src, node.start as int, node.end as int)] + rest
        } else {
            rest
        }
    }
}

/// The path that node `i` spells: one word, or the words of a property expression.
pub open spec fn path_of(nodes: Seq<Node>, src: Seq<char>, i: int) -> Option<Seq<Seq<char>>> {
    if nodes[i].kind@ == "symbol"@ {
        Some(seq![cut_of(src, nodes[i].start as int, nodes[i].end as int)])
    } else if nodes[i].kind@ == "property_expression"@ {
        Some(words_among(nodes, src, children_of(nodes, i)))
    } else {
        None
    }
}

/// The property path at `i`, on its own or as the left-hand side of an assignment.
pub open spec fn property_path_at(run: RunView, i: int) -> Option<Seq<Seq<char>>> {
    let nodes = run.nodes;
    if !run.has(i) {
        None
    } else if run.node(i).kind@ == "assignment_lhs"@ {
        let inner = children_of(nodes, run.children[i] as int);
        if inner.len() == 0 {
            None
        } else {
            path_of(nodes, run.src, inner[0] as int)
        }
    } else {
        path_of(nodes, run.src, run.children[i] as int)
    }
}

/// `text` without the backslash it starts with.
pub open spec fn unescaped_word(text: Seq<char>) -> Seq<char> {
    if text.len() > 0 && text[0] == '\\' {
        text.drop_first()
    } else {
        text
    }
}

/// The argument of kind `kind` at `i`, and the first node past it; none where the node there is
/// not of that shape.
pub open spec fn argument_at(kind: ArgKind, run: RunView, i: int) -> Option<(ArgView, int)>
    decreases kind,
{
    let span = run.place(i);
    if !run.has(i) {
        None
    } else {
        match kind {
            ArgKind::BareWord => if run.is_kind(i, "symbol"@) {
                Some((ArgView::BareWord { span, text: run.source(i) }, i + 1))
            } else {
                None
            },
            ArgKind::ContextType => if run.is_kind(i, "symbol"@) {
                Some((ArgView::ContextType { span, name: run.source(i) }, i + 1))
            } else {
                None
            },
            ArgKind::Count => if run.is_kind(i, "unsigned_integer"@) {
                Some((ArgView::Count { span, value: number_or_zero(run.source(i)) }, i + 1))
            } else {
                None
            },
            ArgKind::NumberList => number_list_at(run, i),
            ArgKind::Fraction => if run.is_kind(i, "fraction"@) {
                Some((ArgView::Fraction { span }, i + 1))
            } else {
                None
            },
            ArgKind::Music => if block_kind(run.node(i).kind@) {
                Some((ArgView::Music { span }, i + 1))
            } else {
                single_music_at(run, i)
            },
            ArgKind::Pitch => pitch_at(run, i),
            ArgKind::Word => if run.is_kind(i, "escaped_word"@) {
                Some((ArgView::Word { span, text: unescaped_word(run.source(i)) }, i + 1))
            } else {
                None
            },
            ArgKind::String => match string_at(run, i) {
                Some(text) => Some((ArgView::String { span, text }, i + 1)),
                None => None,
            },
            ArgKind::ContextName => match string_at(run, i) {
                Some(name) => Some((ArgView::ContextName { span, name }, i + 1)),
                None => None,
            },
            ArgKind::PropertyPath => match property_path_at(run, i) {
                Some(path) => Some((ArgView::PropertyPath { span, path }, i + 1)),
                None => None,
            },
            ArgKind::Literal(text) => if run.is_mark(i, text@) {
                Some((ArgView::Literal { span }, i + 1))
            } else {
                None
            },
            ArgKind::Unknown(_) => if !typed_shape(run.node(i).kind@) {
                Some((ArgView::Unknown { span }, i + 1))
            } else {
                None
            },
            ArgKind::Group(params) => {
                let (args, next) = arguments_at(params@, run, i);
                if args.len() == 0 {
                    None
                } else {
                    Some(
                        (
                            ArgView::Group {
                                span: Span {
                                    start: args[0].place().start,
                                    end: args.last().place().end,
                                },
                                args,
                            },
                            next,
                        ),
                    )
                }
            },
        }
    }
}

/// The arguments that `params` call for from `i` on, and the first node past them. A parameter
/// that is not there is skipped if it is optional, and ends the reading otherwise.
pub open spec fn arguments_at(params: Seq<Param>, run: RunView, i: int) -> (Seq<ArgView>, int)
    decreases params,
{
    if params.len() == 0 {
        (Seq::empty(), i)
    } else {
        match argument_at(params[0].kind, run, i) {
            Some((arg, next)) => {
                let (args, past) = arguments_at(params.drop_first(), run, next);
                (seq![arg] + args, past)
            },
            None => if params[0].optional {
                arguments_at(params.drop_first(), run, i)
            } else {
                (Seq::empty(), i)
            },
        }
    }
}

impl<'a> Run<'a> {
    fn kind_at(&self, k: usize, kind: &str) -> (r: bool)
        requires
            self.wf(),
        ensures
            r == self@.is_kind(k as int, kind@),
    {
        k < self.children.len() && self.tree.is(self.children[k], kind)
    }

    fn span_at(&self, k: usize) -> (r: Span)
        requires
            self.wf(),
            self@.has(k as int),
        ensures
            r == self@.place(k as int),
            r.start == self@.node(k as int).start,
            r.end == self@.node(k as int).end,
    {
        self.tree.span(self.children[k])
    }

    fn text_at(&self, k: usize) -> (r: &'a str)
        requires
            self.wf(),
            self@.has(k as int),
        ensures
            r@ == self@.source(k as int),
    {
        let span = self.span_at(k);
        cut(self.src, span.start, span.end)
    }

    /// True if the node at `k` is a `punctuation` node whose text is exactly `text`.
    fn is_punct(&self, k: usize, text: &str) -> (r: bool)
        requires
            self.wf(),
        ensures
            r == self@.is_mark(k as int, text@),
    {
        self.kind_at(k, "punctuation") && same(self.text_at(k), text)
    }

    fn number(&self, k: usize) -> (r: u32)
        requires
            self.wf(),
            self@.has(k as int),
        ensures
            r == number_or_zero(self@.source(k as int)),
    {
        match parse_number(self.text_at(k)) {
            Some(n) => n,
            None => 0,
        }
    }
}

/// Consumes a braceless music argument: a single note or chord written without surrounding
/// braces.
pub fn consume_single_music(run: &Run, start: usize) -> (r: Option<(Arg, usize)>)
    requires
        run.wf(),
    ensures
        is_argument(r, single_music_at(run@, start as int)),
        r matches Some(found) ==> start < found.1 <= run.children@.len(),
{
    if !run.kind_at(start, "symbol") && !run.kind_at(start, "chord") {
        return None;
    }
    let first = run.span_at(start);
    let mut end: usize = first.end;
    let mut i: usize = start + 1;
    while i < run.children.len() && run.tree.nodes[run.children[i]].start == end
        invariant
            run.wf(),
            start < i <= run.children@.len(),
            adjacent(run@, start + 1, first.end) == adjacent(run@, i as int, end),
        decreases run.children.len() - i,
    {
        end = run.span_at(i).end;
        i = i + 1;
    }
    Some((Arg::Music { span: Span::new(first.start, end) }, i))
}

/// Whether a result is the argument that `expected` describes.
pub open spec fn is_argument(r: Option<(Arg, usize)>, expected: Option<(ArgView, int)>) -> bool {
    match r {
        Some((arg, next)) => expected == Some((arg_view(arg), next as int)),
        None => expected is None,
    }
}

/// Consumes a comma-separated run of unsigned integers. A trailing comma with no integer after it
/// is left alone.
pub fn consume_number_list(run: &Run, start: usize) -> (r: Option<(Arg, usize)>)
    requires
        run.wf(),
    ensures
        is_argument(r, number_list_at(run@, start as int)),
        r matches Some(found) ==> start < found.1 <= run.children@.len(),
{
    if !run.kind_at(start, "unsigned_integer") {
        return None;
    }
    let first = run.span_at(start);
    let mut values: Vec<u32> = Vec::new();
    values.push(run.number(start));
    let mut end: usize = first.end;
    let mut i: usize = start + 1;
    let ghost head = values@;
    let ghost all = more_numbers(run@, start + 1, first.end);
    assert(head =~= seq![number_or_zero(run@.source(start as int))]);
    assert(head + all.0 =~= values@ + all.0);
    while run.is_punct(i, ",") && run.kind_at(i + 1, "unsigned_integer")
        invariant
            run.wf(),
            start < i <= run.children@.len(),
            all == more_numbers(run@, start + 1, first.end),
            all.1 == more_numbers(run@, i as int, end).1,
            all.2 == more_numbers(run@, i as int, end).2,
            head + all.0 == values@ + more_numbers(run@, i as int, end).0,
        decreases run.children.len() - i,
    {
        let ghost before = values@;
        let ghost rest = more_numbers(run@, i + 2, run@.node(i + 1).end);
        let n = run.number(i + 1);
        values.push(n);
        assert(values@ + rest.0 =~= before + (seq![n] + rest.0));
        end = run.span_at(i + 1).end;
        i = i + 2;
    }
    assert(values@ + more_numbers(run@, i as int, end).0 =~= values@);
    Some((Arg::NumberList { span: Span::new(first.start, end), values }, i))
}

/// Consumes a run of octave marks: the net shift and the first node past them.
fn consume_marks(run: &Run, start: usize, reminders: bool) -> (r: (i32, usize))
    requires
        run.wf(),
        start <= run.children@.len(),
    ensures
        (r.0 as int, r.1 as int) == marks_from(run@, start as int, reminders),
        start <= r.1 <= run.children@.len(),
        -(r.1 - start) <= r.0 <= r.1 - start,
{
    let mut marks: i32 = 0;
    let mut i: usize = start;
    loop
        invariant
            run.wf(),
            start <= i <= run.children@.len(),
            marks_from(run@, start as int, reminders).0 == marks + marks_from(
                run@,
                i as int,
                reminders,
            ).0,
            marks_from(run@, start as int, reminders).1 == marks_from(
                run@,
                i as int,
                reminders,
            ).1,
            -(i - start) <= marks <= i - start,
        decreases run.children@.len() - i,
    {
        if run.is_punct(i, "'") {
            marks = marks + 1;
        } else if run.is_punct(i, ",") {
            marks = marks - 1;
        } else if reminders && (run.is_punct(i, "!") || run.is_punct(i, "?")) {
            // Accidental reminders carry no octave information; consumed so they don't stop the
            // run.
        } else {
            return (marks, i);
        }
        i = i + 1;
    }
}

/// Consumes octave marks (`'`/`,`), accidental reminders (`!`/`?`) and an optional octave check
/// (`='`/`=,`). Returns the net octave shift, the checked octave (LilyPond's internal value, `c` =
/// -1) if a check is present, and the first node past them.
pub fn parse_octave_marks(run: &Run, start: usize) -> (r: (i32, Option<i32>, usize))
    requires
        run.wf(),
        start <= run.children@.len(),
    ensures
        ({
            let (shift, check, next) = octave_marks_at(run@, start as int);
            r.0 == shift && r.2 == next && match r.1 {
                Some(octave) => check == Some(octave as int),
                None => check is None,
            }
        }),
        start <= r.2 <= run.children@.len(),
        -(r.2 - start) <= r.0 <= r.2 - start,
{
    let (marks, i) = consume_marks(run, start, true);
    if run.is_punct(i, "=") {
        let (checked, past) = consume_marks(run, i + 1, false);
        (marks, Some(checked - 1), past)
    } else {
        (marks, None, i)
    }
}

/// Consumes a pitch argument: a note name with octave marks, resolved through the language.
pub fn consume_pitch(run: &Run, start: usize) -> (r: Option<(Arg, usize)>)
    requires
        run.wf(),
    ensures
        is_argument(r, pitch_at(run@, start as int)),
        r matches Some(found) ==> start < found.1 <= run.children@.len(),
{
    if !run.kind_at(start, "symbol") {
        return None;
    }
    let span = run.span_at(start);
    let (note_name, alteration) = match run.language.note(run.text_at(start)) {
        Some(note) => note,
        None => {
            return None;
        },
    };
    let (marks, check, i) = parse_octave_marks(run, start + 1);
    let octave: i32 = match check {
        Some(octave) => octave,
        None => marks - 1,
    };
    let end = run.span_at(i - 1).end;
    Some(
        (
            Arg::Pitch {
                span: Span::new(span.start, end),
                pitch: Pitch { note_name, octave, alteration },
            },
            i,
        ),
    )
}

/// The first of a row of nodes that is named and of kind `kind`.
pub fn find_named(tree: &SyntaxTree, row: &Vec<usize>, kind: &str) -> (r: Option<usize>)
    requires
        forall|k: int| 0 <= k < row@.len() ==> (#[trigger] row@[k]) < tree.nodes@.len(),
    ensures
        r == first_named(tree.nodes@, row@, kind@),
        r is Some ==> r->0 < tree.nodes@.len(),
{
    let mut k: usize = 0;
    assert(row@.subrange(0, row@.len() as int) =~= row@);
    while k < row.len()
        invariant
            k <= row@.len(),
            forall|k: int| 0 <= k < row@.len() ==> (#[trigger] row@[k]) < tree.nodes@.len(),
            first_named(tree.nodes@, row@, kind@) == first_named(
                tree.nodes@,
                row@.subrange(k as int, row@.len() as int),
                kind@,
            ),
        decreases row.len() - k,
    {
        let c = row[k];
        if tree.nodes[c].named && tree.is(c, kind) {
            return Some(c);
        }
        assert(row@.subrange(k as int, row@.len() as int).drop_first() =~= row@.subrange(
            k + 1,
            row@.len() as int,
        ));
        k = k + 1;
    }
    None
}

/// The text inside a `string` node's quotes, as far as its first `string_fragment` goes.
pub fn string_fragment<'a>(tree: &SyntaxTree, node: usize, src: &'a str) -> (r: Option<&'a str>)
    requires
        tree.wf(),
        node < tree.nodes@.len(),
    ensures
        match r {
            Some(text) => fragment_of(tree.nodes@, src@, node as int) == Some(text@),
            None => fragment_of(tree.nodes@, src@, node as int) is None,
        },
{
    let row = tree.children(node);
    match find_named(tree, &row, "string_fragment") {
        Some(c) => Some(cut(src, tree.nodes[c].start, tree.nodes[c].end)),
        None => None,
    }
}

/// A quoted string, or a bare symbol standing in for one.
fn string_text(run: &Run, start: usize) -> (r: Option<String>)
    requires
        run.wf(),
    ensures
        match r {
            Some(text) => string_at(run@, start as int) == Some(text@),
            None => string_at(run@, start as int) is None,
        },
        r is Some ==> run@.has(start as int),
{
    if run.kind_at(start, "string") {
        match string_fragment(run.tree, run.children[start], run.src) {
            Some(text) => Some(text.to_string()),
            None => Some(String::new()),
        }
    } else if run.kind_at(start, "symbol") {
        Some(run.text_at(start).to_string())
    } else {
        None
    }
}

/// Consumes a quoted string or a bare symbol standing in for one (`\clef "bass"`, `\language
/// english`).
pub fn consume_string(run: &Run, start: usize) -> (r: Option<(Arg, usize)>)
    requires
        run.wf(),
    ensures
        is_argument(
            r,
            match string_at(run@, start as int) {
                Some(text) => Some(
                    (ArgView::String { span: run@.place(start as int), text }, start + 1),
                ),
                None => None,
            },
        ),
        r matches Some(found) ==> found.1 == start + 1 && run@.has(start as int),
{
    match string_text(run, start) {
        Some(text) => Some((Arg::String { span: run.span_at(start), text }, start + 1)),
        None => None,
    }
}

/// Consumes a context instance name: a quoted string or a bare symbol standing in for one.
pub fn consume_context_name(run: &Run, start: usize) -> (r: Option<(Arg, usize)>)
    requires
        run.wf(),
    ensures
        is_argument(
            r,
            match string_at(run@, start as int) {
                Some(name) => Some(
                    (ArgView::ContextName { span: run@.place(start as int), name }, start + 1),
                ),
                None => None,
            },
        ),
        r matches Some(found) ==> found.1 == start + 1 && run@.has(start as int),
{
    match string_text(run, start) {
        Some(name) => Some((Arg::ContextName { span: run.span_at(start), name }, start + 1)),
        None => None,
    }
}

/// The words among a row of nodes.
fn collect_words(tree: &SyntaxTree, row: &Vec<usize>, src: &str) -> (r: Vec<String>)
    requires
        forall|k: int| 0 <= k < row@.len() ==> (#[trigger] row@[k]) < tree.nodes@.len(),
    ensures
        text_views(r@) == words_among(tree.nodes@, src@, row@),
{
    let mut out: Vec<String> = Vec::new();
    let mut k: usize = 0;
    assert(row@.subrange(0, row@.len() as int) =~= row@);
    assert(text_views(out@) =~= Seq::empty());
    assert(text_views(out@) + words_among(tree.nodes@, src@, row@) =~= words_among(
        tree.nodes@,
        src@,
        row@,
    ));
    while k < row.len()
        invariant
            k <= row@.len(),
            forall|k: int| 0 <= k < row@.len() ==> (#[trigger] row@[k]) < tree.nodes@.len(),
            text_views(out@) + words_among(
                tree.nodes@,
                src@,
                row@.subrange(k as int, row@.len() as int),
            ) == words_among(tree.nodes@, src@, row@),
        decreases row.len() - k,
    {
        let c = row[k];
        let ghost before = out@;
        let ghost rest = words_among(tree.nodes@, src@, row@.subrange(k + 1, row@.len() as int));
        assert(row@.subrange(k as int, row@.len() as int).drop_first() =~= row@.subrange(
            k + 1,
            row@.len() as int,
        ));
        if tree.is(c, "symbol") {
            let word = cut(src, tree.nodes[c].start, tree.nodes[c].end);
            out.push(word.to_string());
            assert(text_views(out@) =~= text_views(before).push(word@));
            assert(text_views(out@) + rest =~= text_views(before) + (seq![word@] + rest));
        }
        k = k + 1;
    }
    assert(row@.subrange(k as int, row@.len() as int) =~= Seq::empty());
    assert(text_views(out@) + Seq::<Seq<char>>::empty() =~= text_views(out@));
    out
}

/// The path that node `i` spells.
fn path_words(tree: &SyntaxTree, i: usize, src: &str) -> (r: Option<Vec<String>>)
    requires
        tree.wf(),
        i < tree.nodes@.len(),
    ensures
        match r {
            Some(path) => path_of(tree.nodes@, src@, i as int) == Some(text_views(path@)),
            None => path_of(tree.nodes@, src@, i as int) is None,
        },
{
    if tree.is(i, "symbol") {
        let mut path: Vec<String> = Vec::new();
        path.push(cut(src, tree.nodes[i].start, tree.nodes[i].end).to_string());
        assert(text_views(path@) =~= seq![
            cut_of(src@, tree.nodes@[i as int].start as int, tree.nodes@[i as int].end as int),
        ]);
        Some(path)
    } else if tree.is(i, "property_expression") {
        let row = tree.children(i);
        Some(collect_words(tree, &row, src))
    } else {
        None
    }
}

/// Consumes a context-property path (`Staff.instrumentName`, or a single `instrumentName`),
/// written on its own or as the left-hand side of an assignment.
pub fn consume_property_path(run: &Run, start: usize) -> (r: Option<(Arg, usize)>)
    requires
        run.wf(),
    ensures
        is_argument(
            r,
            match property_path_at(run@, start as int) {
                Some(path) => Some(
                    (ArgView::PropertyPath { span: run@.place(start as int), path }, start + 1),
                ),
                None => None,
            },
        ),
        r matches Some(found) ==> found.1 == start + 1 && run@.has(start as int),
{
    if start >= run.children.len() {
        return None;
    }
    let node = run.children[start];
    let target: usize = if run.tree.is(node, "assignment_lhs") {
        let inner = run.tree.children(node);
        if inner.len() == 0 {
            return None;
        }
        inner[0]
    } else {
        node
    };
    match path_words(run.tree, target, run.src) {
        Some(path) => Some((Arg::PropertyPath { span: run.span_at(start), path }, start + 1)),
        None => None,
    }
}

/// `text` without the backslash it starts with.
pub fn strip_backslash(text: &str) -> (r: String)
    ensures
        r@ == unescaped_word(text@),
{
    let chars = crate::text::chars_of(text);
    if chars.len() > 0 && chars[0] == '\\' {
        let rest = vstd::string::StrSliceExecFns::substring_char(text, 1, chars.len());
        assert(rest@ =~= text@.drop_first());
        rest.to_string()
    } else {
        text.to_string()
    }
}

/// Consumes one argument of the given `kind` starting at node `i`, returning it and the next
/// index, or `None` if the expected node isn't there.
pub fn consume_arg(kind: &ArgKind, run: &Run, i: usize) -> (r: Option<(Arg, usize)>)
    requires
        run.wf(),
    ensures
        is_argument(r, argument_at(*kind, run@, i as int)),
        r matches Some(found) ==> i <= found.1 <= run.children@.len(),
    decreases kind, 2int,
{
    if i >= run.children.len() {
        return None;
    }
    let span = run.span_at(i);
    match kind {
        ArgKind::BareWord => if run.kind_at(i, "symbol") {
            Some((Arg::BareWord { span, text: run.text_at(i).to_string() }, i + 1))
        } else {
            None
        },
        ArgKind::ContextType => if run.kind_at(i, "symbol") {
            Some((Arg::ContextType { span, name: run.text_at(i).to_string() }, i + 1))
        } else {
            None
        },
        ArgKind::Count => if run.kind_at(i, "unsigned_integer") {
            Some((Arg::Count { span, value: run.number(i) }, i + 1))
        } else {
            None
        },
        ArgKind::NumberList => consume_number_list(run, i),
        ArgKind::Fraction => if run.kind_at(i, "fraction") {
            Some((Arg::Fraction { span }, i + 1))
        } else {
            None
        },
        ArgKind::Music => if is_block(run.tree.nodes[run.children[i]].kind.as_str()) {
            Some((Arg::Music { span }, i + 1))
        } else {
            consume_single_music(run, i)
        },
        ArgKind::Pitch => consume_pitch(run, i),
        ArgKind::Word => if run.kind_at(i, "escaped_word") {
            Some((Arg::Word { span, text: strip_backslash(run.text_at(i)) }, i + 1))
        } else {
            None
        },
        ArgKind::String => consume_string(run, i),
        ArgKind::ContextName => consume_context_name(run, i),
        ArgKind::PropertyPath => consume_property_path(run, i),
        ArgKind::Literal(text) => if run.is_punct(i, text.as_str()) {
            Some((Arg::Literal { span }, i + 1))
        } else {
            None
        },
        // An argument of unknown shape must never claim a node that a more specific kind would
        // also claim: where it is optional and was left out, the node belongs to the parameter
        // after it.
        ArgKind::Unknown(_) => if !looks_like_a_typed_shape(
            run.tree.nodes[run.children[i]].kind.as_str(),
        ) {
            Some((Arg::Unknown { span }, i + 1))
        } else {
            None
        },
        ArgKind::Group(params) => consume_group(params, run, i),
    }
}

/// Consumes a group: a run of parameters, read as one argument. A required piece that is missing
/// ends the group with the pieces before it; a group of no pieces is none.
pub fn consume_group(params: &Vec<Param>, run: &Run, start: usize) -> (r: Option<(Arg, usize)>)
    requires
        run.wf(),
        start <= run.children@.len(),
    ensures
        ({
            let (args, next) = arguments_at(params@, run@, start as int);
            match r {
                Some((arg, past)) => past == next && args.len() > 0 && arg_view(arg)
                    == (ArgView::Group {
                    span: Span { start: args[0].place().start, end: args.last().place().end },
                    args,
                }),
                None => args.len() == 0,
            }
        }),
        r matches Some(found) ==> start <= found.1 <= run.children@.len(),
    decreases params, 1int,
{
    let (args, i) = consume_params(params, run, start);
    proof {
        lemma_arg_views(args@);
    }
    if args.len() == 0 {
        return None;
    }
    let first = args[0].span();
    let last = args[args.len() - 1].span();
    Some((Arg::Group { span: Span::new(first.start, last.end), args }, i))
}

/// Reads the arguments that `params` call for, and the first node past them.
pub fn consume_params(params: &Vec<Param>, run: &Run, start: usize) -> (r: (Vec<Arg>, usize))
    requires
        run.wf(),
        start <= run.children@.len(),
    ensures
        (arg_views(r.0@), r.1 as int) == arguments_at(params@, run@, start as int),
        start <= r.1 <= run.children@.len(),
    decreases params, 0int,
{
    let mut args: Vec<Arg> = Vec::new();
    let mut i: usize = start;
    let mut k: usize = 0;
    let ghost all = arguments_at(params@, run@, start as int);
    assert(params@.subrange(0, params@.len() as int) =~= params@);
    assert(arg_views(args@) + all.0 =~= all.0);
    while k < params.len()
        invariant
            run.wf(),
            k <= params@.len(),
            start <= i <= run.children@.len(),
            all == arguments_at(params@, run@, start as int),
            arg_views(args@) + arguments_at(
                params@.subrange(k as int, params@.len() as int),
                run@,
                i as int,
            ).0 == all.0,
            arguments_at(
                params@.subrange(k as int, params@.len() as int),
                run@,
                i as int,
            ).1 == all.1,
        decreases params.len() - k,
    {
        let ghost rest = params@.subrange(k as int, params@.len() as int);
        assert(rest.drop_first() =~= params@.subrange(k + 1, params@.len() as int));
        assert(rest[0] == params@[k as int]);
        assert(decreases_to!(params => params@[k as int].kind));
        match consume_arg(&params[k].kind, run, i) {
            Some((arg, next)) => {
                proof {
                    lemma_arg_views_push(args@, arg);
                    let more = arguments_at(rest.drop_first(), run@, next as int).0;
                    assert(arg_views(args@).push(arg_view(arg)) + more =~= arg_views(args@) + (
                    seq![arg_view(arg)] + more));
                }
                args.push(arg);
                i = next;
            },
            None => {
                if !params[k].optional {
                    assert(arg_views(args@) + Seq::<ArgView>::empty() =~= arg_views(args@));
                    return (args, i);
                }
            },
        }
        k = k + 1;
    }
    assert(params@.subrange(k as int, params@.len() as int) =~= Seq::empty());
    assert(arg_views(args@) + Seq::<ArgView>::empty() =~= arg_views(args@));
    (args, i)
}

/// A run of which only the first `n` nodes are there yet.
pub open spec fn cut_short(run: RunView, n: int) -> RunView {
    RunView { children: run.children.subrange(0, n), ..run }
}

proof fn lemma_adjacent_cut(run: RunView, n: int, k: int, end: usize)
    requires
        0 <= n <= run.children.len(),
        0 <= k,
        adjacent(run, k, end).0 <= n,
    ensures
        adjacent(cut_short(run, n), k, end) == adjacent(run, k, end),
        k <= adjacent(run, k, end).0,
    decreases run.children.len() - k,
{
    if run.has(k) && run.node(k).start == end {
        lemma_adjacent_grows(run, k + 1, run.node(k).end);
        lemma_adjacent_cut(run, n, k + 1, run.node(k).end);
        assert(cut_short(run, n).node(k) == run.node(k));
    }
}

proof fn lemma_adjacent_grows(run: RunView, k: int, end: usize)
    ensures
        k <= adjacent(run, k, end).0,
    decreases run.children.len() - k,
{
    if run.has(k) && run.node(k).start == end {
        lemma_adjacent_grows(run, k + 1, run.node(k).end);
    }
}

proof fn lemma_numbers_grow(run: RunView, k: int, end: usize)
    ensures
        k <= more_numbers(run, k, end).2,
    decreases run.children.len() - k,
{
    if run.is_mark(k, ","@) && run.is_kind(k + 1, "unsigned_integer"@) {
        lemma_numbers_grow(run, k + 2, run.node(k + 1).end);
    }
}

proof fn lemma_numbers_cut(run: RunView, n: int, k: int, end: usize)
    requires
        0 <= n <= run.children.len(),
        0 <= k,
        more_numbers(run, k, end).2 <= n,
    ensures
        more_numbers(cut_short(run, n), k, end) == more_numbers(run, k, end),
    decreases run.children.len() - k,
{
    let short = cut_short(run, n);
    if run.is_mark(k, ","@) && run.is_kind(k + 1, "unsigned_integer"@) {
        lemma_numbers_grow(run, k + 2, run.node(k + 1).end);
        lemma_numbers_cut(run, n, k + 2, run.node(k + 1).end);
        assert(short.node(k) == run.node(k));
        assert(short.node(k + 1) == run.node(k + 1));
    } else {
        lemma_marks_seen(run, n, k, ","@);
        if short.is_kind(k + 1, "unsigned_integer"@) {
            assert(short.node(k + 1) == run.node(k + 1));
        }
    }
}

/// A node seen in a run that was cut short is seen in the whole run.
proof fn lemma_marks_seen(run: RunView, n: int, k: int, text: Seq<char>)
    requires
        0 <= n <= run.children.len(),
    ensures
        cut_short(run, n).is_mark(k, text) ==> run.is_mark(k, text),
        0 <= k < n ==> cut_short(run, n).is_mark(k, text) == run.is_mark(k, text),
{
    if 0 <= k < n {
        assert(cut_short(run, n).node(k) == run.node(k));
    }
}

proof fn lemma_marks_grow(run: RunView, k: int, reminders: bool)
    ensures
        k <= marks_from(run, k, reminders).1,
    decreases run.children.len() - k,
{
    if run.is_mark(k, "'"@) || run.is_mark(k, ","@) || (reminders && (run.is_mark(k, "!"@)
        || run.is_mark(k, "?"@))) {
        lemma_marks_grow(run, k + 1, reminders);
    }
}

proof fn lemma_marks_cut(run: RunView, n: int, k: int, reminders: bool)
    requires
        0 <= n <= run.children.len(),
        0 <= k,
        marks_from(run, k, reminders).1 <= n,
    ensures
        marks_from(cut_short(run, n), k, reminders) == marks_from(run, k, reminders),
    decreases run.children.len() - k,
{
    lemma_marks_seen(run, n, k, "'"@);
    lemma_marks_seen(run, n, k, ","@);
    lemma_marks_seen(run, n, k, "!"@);
    lemma_marks_seen(run, n, k, "?"@);
    if run.is_mark(k, "'"@) || run.is_mark(k, ","@) || (reminders && (run.is_mark(k, "!"@)
        || run.is_mark(k, "?"@))) {
        lemma_marks_grow(run, k + 1, reminders);
        lemma_marks_cut(run, n, k + 1, reminders);
    }
}

proof fn lemma_octave_cut(run: RunView, n: int, k: int)
    requires
        0 <= n <= run.children.len(),
        0 <= k,
        octave_marks_at(run, k).2 <= n,
    ensures
        octave_marks_at(cut_short(run, n), k) == octave_marks_at(run, k),
        k <= octave_marks_at(run, k).2,
{
    let next = marks_from(run, k, true).1;
    lemma_marks_grow(run, k, true);
    if run.is_mark(next, "="@) {
        lemma_marks_grow(run, next + 1, false);
        lemma_marks_cut(run, n, next + 1, false);
    }
    lemma_marks_cut(run, n, k, true);
    lemma_marks_seen(run, n, next, "="@);
}

/// Reading an argument never goes back, and reads the same from a run cut short behind it. What is
/// not there in the whole run is not there in one cut short either.
proof fn lemma_argument_cut(kind: ArgKind, run: RunView, n: int, i: int)
    requires
        0 <= n <= run.children.len(),
        0 <= i,
    ensures
        match argument_at(kind, run, i) {
            Some((arg, next)) => i < next && (next <= n ==> argument_at(
                kind,
                cut_short(run, n),
                i,
            ) == Some((arg, next))),
            None => argument_at(kind, cut_short(run, n), i) is None,
        },
    decreases kind, 1int,
{
    let short = cut_short(run, n);
    if i < n {
        assert(short.node(i) == run.node(i));
        assert(short.children[i] == run.children[i]);
    }
    match kind {
        ArgKind::NumberList => {
            if run.is_kind(i, "unsigned_integer"@) {
                lemma_numbers_grow(run, i + 1, run.node(i).end);
                if more_numbers(run, i + 1, run.node(i).end).2 <= n {
                    lemma_numbers_cut(run, n, i + 1, run.node(i).end);
                    assert(short.source(i) == run.source(i));
                    assert(number_list_at(short, i) == number_list_at(run, i));
                }
            }
        },
        ArgKind::Music => {
            if run.has(i) && !block_kind(run.node(i).kind@) {
                lemma_adjacent_grows(run, i + 1, run.node(i).end);
                if adjacent(run, i + 1, run.node(i).end).0 <= n {
                    lemma_adjacent_cut(run, n, i + 1, run.node(i).end);
                }
            }
        },
        ArgKind::Pitch => {
            lemma_marks_grow(run, i + 1, true);
            lemma_marks_grow(run, marks_from(run, i + 1, true).1 + 1, false);
            let next = octave_marks_at(run, i + 1).2;
            if next <= n {
                lemma_octave_cut(run, n, i + 1);
                if i < n {
                    assert(short.node(next - 1) == run.node(next - 1));
                }
            }
        },
        ArgKind::Literal(text) => {
            lemma_marks_seen(run, n, i, text@);
        },
        ArgKind::Group(params) => {
            lemma_arguments_cut(params@, run, n, i);
        },
        _ => {},
    }
}

/// Reading arguments never goes back, and reads the same from a run cut short behind them; and a run
/// cut short gives none where the whole run gives none.
proof fn lemma_arguments_cut(params: Seq<Param>, run: RunView, n: int, i: int)
    requires
        0 <= n <= run.children.len(),
        0 <= i,
    ensures
        i <= arguments_at(params, run, i).1,
        arguments_at(params, run, i).0.len() > 0 ==> i < arguments_at(params, run, i).1,
        arguments_at(params, run, i).1 <= n ==> arguments_at(params, cut_short(run, n), i)
            == arguments_at(params, run, i),
        arguments_at(params, run, i).0.len() == 0 ==> arguments_at(
            params,
            cut_short(run, n),
            i,
        ).0.len() == 0,
    decreases params, 0int,
{
    if params.len() > 0 {
        lemma_argument_cut(params[0].kind, run, n, i);
        match argument_at(params[0].kind, run, i) {
            Some((arg, next)) => {
                lemma_arguments_cut(params.drop_first(), run, n, next);
            },
            None => {
                lemma_arguments_cut(params.drop_first(), run, n, i);
            },
        }
    }
}

/// The first `m` arguments that `params` call for, and where they end.
pub open spec fn first_arguments(params: Seq<Param>, run: RunView, i: int, m: int) -> (
    Seq<ArgView>,
    int,
)
    decreases params.len(),
{
    if params.len() == 0 || m <= 0 {
        (Seq::empty(), i)
    } else {
        match argument_at(params[0].kind, run, i) {
            Some((arg, next)) => {
                let (args, past) = first_arguments(params.drop_first(), run, next, m - 1);
                (seq![arg] + args, past)
            },
            None => if params[0].optional {
                first_arguments(params.drop_first(), run, i, m)
            } else {
                (Seq::empty(), i)
            },
        }
    }
}

/// Nothing is read past the end of a run.
proof fn lemma_nothing_past_the_end(params: Seq<Param>, run: RunView, i: int)
    requires
        !run.has(i),
    ensures
        arguments_at(params, run, i).0 == Seq::<ArgView>::empty(),
    decreases params.len(),
{
    if params.len() > 0 {
        assert(argument_at(params[0].kind, run, i) is None);
        lemma_nothing_past_the_end(params.drop_first(), run, i);
    }
}

/// Where the first `m` arguments end lies behind where they start, within the run.
proof fn lemma_first_arguments_grow(params: Seq<Param>, run: RunView, i: int, m: int)
    requires
        0 <= i <= run.children.len(),
    ensures
        i <= first_arguments(params, run, i, m).1 <= run.children.len(),
    decreases params.len(),
{
    if params.len() > 0 && m > 0 {
        match argument_at(params[0].kind, run, i) {
            Some((arg, next)) => {
                lemma_argument_cut(params[0].kind, run, run.children.len() as int, i);
                lemma_argument_within(params[0].kind, run, i);
                lemma_first_arguments_grow(params.drop_first(), run, next, m - 1);
            },
            None => {
                lemma_first_arguments_grow(params.drop_first(), run, i, m);
            },
        }
    }
}

/// An argument ends within the run.
proof fn lemma_argument_within(kind: ArgKind, run: RunView, i: int)
    requires
        0 <= i,
    ensures
        argument_at(kind, run, i) matches Some(found) ==> found.1 <= run.children.len(),
    decreases kind, 1int,
{
    match kind {
        ArgKind::NumberList => {
            if run.has(i) {
                lemma_numbers_within(run, i + 1, run.node(i).end);
            }
        },
        ArgKind::Music => {
            if run.has(i) {
                lemma_adjacent_within(run, i + 1, run.node(i).end);
            }
        },
        ArgKind::Pitch => {
            if run.has(i) {
                lemma_marks_within(run, i + 1, true);
                let next = marks_from(run, i + 1, true).1;
                if run.is_mark(next, "="@) {
                    lemma_marks_within(run, next + 1, false);
                }
            }
        },
        ArgKind::Group(params) => {
            if run.has(i) {
                lemma_arguments_within(params@, run, i);
            }
        },
        _ => {},
    }
}

proof fn lemma_arguments_within(params: Seq<Param>, run: RunView, i: int)
    requires
        0 <= i <= run.children.len(),
    ensures
        arguments_at(params, run, i).1 <= run.children.len(),
    decreases params, 0int,
{
    if params.len() > 0 {
        lemma_argument_within(params[0].kind, run, i);
        lemma_argument_cut(params[0].kind, run, run.children.len() as int, i);
        match argument_at(params[0].kind, run, i) {
            Some((arg, next)) => {
                lemma_arguments_within(params.drop_first(), run, next);
            },
            None => {
                lemma_arguments_within(params.drop_first(), run, i);
            },
        }
    }
}

proof fn lemma_numbers_within(run: RunView, k: int, end: usize)
    requires
        k <= run.children.len(),
    ensures
        more_numbers(run, k, end).2 <= run.children.len(),
    decreases run.children.len() - k,
{
    if run.is_mark(k, ","@) && run.is_kind(k + 1, "unsigned_integer"@) {
        lemma_numbers_within(run, k + 2, run.node(k + 1).end);
    }
}

proof fn lemma_adjacent_within(run: RunView, k: int, end: usize)
    requires
        k <= run.children.len(),
    ensures
        adjacent(run, k, end).0 <= run.children.len(),
    decreases run.children.len() - k,
{
    if run.has(k) && run.node(k).start == end {
        lemma_adjacent_within(run, k + 1, run.node(k).end);
    }
}

proof fn lemma_marks_within(run: RunView, k: int, reminders: bool)
    requires
        k <= run.children.len(),
    ensures
        marks_from(run, k, reminders).1 <= run.children.len(),
    decreases run.children.len() - k,
{
    if run.is_mark(k, "'"@) || run.is_mark(k, ","@) || (reminders && (run.is_mark(k, "!"@)
        || run.is_mark(k, "?"@))) {
        lemma_marks_within(run, k + 1, reminders);
    }
}

/// A call typed up to the end of one of its arguments has exactly the arguments up to there: the
/// first of those of the whole call.
pub proof fn law_a_truncated_call_has_a_prefix_of_the_arguments(
    params: Seq<Param>,
    run: RunView,
    i: int,
    m: int,
)
    requires
        0 <= i <= run.children.len(),
        0 <= m <= arguments_at(params, run, i).0.len(),
    ensures
        ({
            let n = first_arguments(params, run, i, m).1;
            arguments_at(params, cut_short(run, n), i).0 == arguments_at(
                params,
                run,
                i,
            ).0.subrange(0, m)
        }),
    decreases params.len(),
{
    let n = first_arguments(params, run, i, m).1;
    let short = cut_short(run, n);
    let full = arguments_at(params, run, i).0;
    lemma_first_arguments_grow(params, run, i, m);
    if m == 0 {
        assert(!short.has(i));
        lemma_nothing_past_the_end(params, short, i);
        assert(full.subrange(0, 0) =~= Seq::<ArgView>::empty());
    } else if params.len() > 0 {
        lemma_argument_cut(params[0].kind, run, n, i);
        match argument_at(params[0].kind, run, i) {
            Some((arg, next)) => {
                let rest = arguments_at(params.drop_first(), run, next).0;
                lemma_argument_cut(params[0].kind, run, run.children.len() as int, i);
                lemma_argument_within(params[0].kind, run, i);
                lemma_first_arguments_grow(params.drop_first(), run, next, m - 1);
                law_a_truncated_call_has_a_prefix_of_the_arguments(
                    params.drop_first(),
                    run,
                    next,
                    m - 1,
                );
                assert(full.subrange(0, m) =~= seq![arg] + rest.subrange(0, m - 1));
            },
            None => {
                law_a_truncated_call_has_a_prefix_of_the_arguments(
                    params.drop_first(),
                    run,
                    i,
                    m,
                );
            },
        }
    }
}

/// A group is read wherever its first piece is, and holds what was read: never nothing.
pub proof fn law_a_group_is_never_empty(params: Vec<Param>, run: RunView, i: int)
    ensures
        argument_at(ArgKind::Group(params), run, i) matches Some(found) ==> match found.0 {
            ArgView::Group { args, .. } => args.len() > 0 && args == arguments_at(
                params@,
                run,
                i,
            ).0,
            _ => false,
        },
{
}

} // verus!
