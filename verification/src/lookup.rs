//! What stands at a position of a document, and where its names occur.
use vstd::prelude::*;
use crate::command::calls::{flat_args, flattened_args};
use crate::command::{Arg, Behaviour, CommandCall, arg_view, definition_spans, latest_definitions};
use crate::document::{Document, Include, Symbol};
use crate::finding::{first_from, last_below};
use crate::line_struct::{LineIndex, Span, offset_of, range_between};
use crate::protocol::{Position, Range};
use crate::syntax::{Node, children_of, parent_of, smallest_from, span_of};
use crate::text::same;
use crate::vocabulary::{find_instance, find_type, instance_among, type_among};

verus! {

/// Which of a list of symbols cover an offset.
pub open spec fn symbol_covers(symbols: Seq<Symbol>, offset: int) -> spec_fn(int) -> bool {
    |k: int| symbols[k].span.has(offset)
}

/// The first of a list of symbols that covers an offset.
pub open spec fn symbol_under(symbols: Seq<Symbol>, offset: int) -> Option<Seq<char>> {
    match first_from(0, symbols.len() as int, symbol_covers(symbols, offset)) {
        Some(k) => Some(symbols[k as int].name@),
        None => None,
    }
}

/// The name under a position: that of the first definition there, or else of the first reference.
pub open spec fn name_at_position(document: Document, position: Position) -> Option<Seq<char>> {
    match offset_of(document.bytes(), position) {
        Some(offset) => match symbol_under(document.definitions@, offset) {
            Some(name) => Some(name),
            None => symbol_under(document.references@, offset),
        },
        None => None,
    }
}

fn find_symbol(symbols: &Vec<Symbol>, offset: usize) -> (r: Option<&str>)
    ensures
        match r {
            Some(name) => symbol_under(symbols@, offset as int) == Some(name@),
            None => symbol_under(symbols@, offset as int) is None,
        },
{
    let ghost fits = symbol_covers(symbols@, offset as int);
    let mut k: usize = 0;
    while k < symbols.len()
        invariant
            k <= symbols@.len(),
            fits == symbol_covers(symbols@, offset as int),
            first_from(0, symbols@.len() as int, fits) == first_from(
                k as int,
                symbols@.len() as int,
                fits,
            ),
        decreases symbols.len() - k,
    {
        if symbols[k].span.contains(offset) {
            return Some(symbols[k].name.as_str());
        }
        k = k + 1;
    }
    None
}

/// Which includes cover an offset.
pub open spec fn path_covers(files: Seq<Include>, offset: int) -> spec_fn(int) -> bool {
    |k: int| files[k].span.has(offset)
}

/// The path under a position, where a file is included there.
pub open spec fn path_at(document: Document, position: Position) -> Option<Seq<char>> {
    match offset_of(document.bytes(), position) {
        Some(offset) => match first_from(
            0,
            document.includes@.len() as int,
            path_covers(document.includes@, offset),
        ) {
            Some(k) => Some(document.includes@[k as int].path@),
            None => None,
        },
        None => None,
    }
}

/// The bracket that goes with one, and whether that one opens.
pub open spec fn counterpart(kind: Seq<char>) -> Option<(Seq<char>, bool)> {
    if kind == "{"@ {
        Some(("}"@, true))
    } else if kind == "}"@ {
        Some(("{"@, false))
    } else if kind == "<<"@ {
        Some((">>"@, true))
    } else if kind == ">>"@ {
        Some(("<<"@, false))
    } else if kind == "<"@ {
        Some((">"@, true))
    } else if kind == ">"@ {
        Some(("<"@, false))
    } else {
        None
    }
}

fn other_bracket(kind: &str) -> (r: Option<(&'static str, bool)>)
    ensures
        match r {
            Some((other, open)) => counterpart(kind@) == Some((other@, open)),
            None => counterpart(kind@) is None,
        },
{
    if same(kind, "{") {
        Some(("}", true))
    } else if same(kind, "}") {
        Some(("{", false))
    } else if same(kind, "<<") {
        Some((">>", true))
    } else if same(kind, ">>") {
        Some(("<<", false))
    } else if same(kind, "<") {
        Some((">", true))
    } else if same(kind, ">") {
        Some(("<", false))
    } else {
        None
    }
}

/// Which of a row of nodes are of a kind and start after an offset.
pub open spec fn kind_after(nodes: Seq<Node>, row: Seq<usize>, kind: Seq<char>, at: usize) -> spec_fn(
    int,
) -> bool {
    |k: int| nodes[row[k] as int].kind@ == kind && nodes[row[k] as int].start > at
}

/// Which of a row of nodes are of a kind and start before an offset.
pub open spec fn kind_before(nodes: Seq<Node>, row: Seq<usize>, kind: Seq<char>, at: usize) -> spec_fn(
    int,
) -> bool {
    |k: int| nodes[row[k] as int].kind@ == kind && nodes[row[k] as int].start < at
}

/// The bracket that node `i` goes with: beside it, the first behind an opening one, the last before
/// a closing one.
pub open spec fn bracket_match(nodes: Seq<Node>, i: int) -> Option<usize> {
    match (counterpart(nodes[i].kind@), parent_of(nodes, i)) {
        (Some((kind, open)), Some(parent)) => {
            let row = children_of(nodes, parent as int);
            let found = if open {
                first_from(0, row.len() as int, kind_after(nodes, row, kind, nodes[i].start))
            } else {
                last_below(row.len() as int, kind_before(nodes, row, kind, nodes[i].start))
            };
            match found {
                Some(k) => Some(row[k as int]),
                None => None,
            }
        },
        _ => None,
    }
}

/// The ranges of the bracket at a position and of the one it goes with.
pub open spec fn brackets_at(document: Document, position: Position) -> Option<(Range, Range)> {
    match offset_of(document.bytes(), position) {
        Some(offset) => {
            let i = smallest_from(document.nodes(), 0, offset, offset);
            match bracket_match(document.nodes(), i) {
                Some(other) => Some(
                    (
                        range_between(document.bytes(), span_of(document.nodes(), i)),
                        range_between(document.bytes(), span_of(document.nodes(), other as int)),
                    ),
                ),
                None => None,
            }
        },
        None => None,
    }
}

/// The ranges of spans.
pub open spec fn ranges_of(bytes: Seq<u8>, spans: Seq<Span>) -> Seq<Range> {
    spans.map_values(|span: Span| range_between(bytes, span))
}

/// Everywhere a document defines a name, in source order.
pub open spec fn defined_at(document: Document, name: Seq<char>) -> Seq<Span> {
    match document.commands_defined.lookup(name) {
        Some(command) => latest_definitions(command).reverse(),
        None => Seq::empty(),
    }
}

/// How many spans in front start no later than `at`.
pub open spec fn leading(spans: Seq<Span>, at: int) -> nat
    decreases spans.len(),
{
    if spans.len() > 0 && spans[0].start <= at {
        1 + leading(spans.drop_first(), at)
    } else {
        0
    }
}

/// The definition in effect at an offset, or at the end of the file.
pub open spec fn in_effect(spans: Seq<Span>, at: Option<usize>) -> Option<Span> {
    if spans.len() == 0 {
        None
    } else {
        match at {
            Some(at) => {
                let n = leading(spans, at as int);
                if n == 0 {
                    Some(spans[0])
                } else {
                    Some(spans[n - 1])
                }
            },
            None => Some(spans.last()),
        }
    }
}

proof fn lemma_leading(spans: Seq<Span>, at: int)
    ensures
        leading(spans, at) <= spans.len(),
        forall|k: int| 0 <= k < leading(spans, at) ==> (#[trigger] spans[k]).start <= at,
        leading(spans, at) < spans.len() ==> spans[leading(spans, at) as int].start > at,
    decreases spans.len(),
{
    if spans.len() > 0 && spans[0].start <= at {
        let rest = spans.drop_first();
        lemma_leading(rest, at);
        assert forall|k: int| 0 <= k < leading(spans, at) implies (#[trigger] spans[k]).start
            <= at by {
            if k > 0 {
                assert(rest[k - 1] == spans[k]);
            }
        }
        if leading(spans, at) < spans.len() {
            assert(rest[leading(rest, at) as int] == spans[leading(spans, at) as int]);
        }
    }
}

/// Of definitions in source order, the one in effect at an offset is the last that starts at or
/// before it; before them all, the first is offered.
pub proof fn law_the_last_definition_before_is_in_effect(spans: Seq<Span>, at: usize)
    requires
        spans.len() > 0,
        forall|i: int, j: int| 0 <= i <= j < spans.len() ==> spans[i].start <= spans[j].start,
    ensures
        exists|k: int|
            0 <= k < spans.len() && in_effect(spans, Some(at)) == Some(#[trigger] spans[k])
                && (spans[k].start <= at || k == 0) && forall|j: int|
                k < j < spans.len() ==> (#[trigger] spans[j]).start > at,
{
    lemma_leading(spans, at as int);
    let n = leading(spans, at as int) as int;
    let k = if n == 0 { 0 } else { n - 1 };
    assert(in_effect(spans, Some(at)) == Some(spans[k]));
    assert forall|j: int| k < j < spans.len() implies (#[trigger] spans[j]).start > at by {
        assert(spans[n].start <= spans[j].start);
    }
}

/// Which of a list of symbols bear a name.
pub open spec fn bears(symbols: Seq<Symbol>, name: Seq<char>, n: int) -> Seq<Span>
    decreases n,
{
    if n <= 0 {
        Seq::empty()
    } else if symbols[n - 1].name@ == name {
        bears(symbols, name, n - 1).push(symbols[n - 1].span)
    } else {
        bears(symbols, name, n - 1)
    }
}

/// A context type or instance that a call names, and whether the call creates it.
pub struct ContextUse {
    pub arg: Arg,
    pub creates: bool,
}

pub open spec fn names_context(arg: Arg) -> bool {
    arg is ContextType || arg is ContextName
}

/// The arguments among the first `n` of a list that name a context.
pub open spec fn uses_among(args: Seq<Arg>, creates: bool, n: int) -> Seq<ContextUse>
    decreases n,
{
    if n <= 0 {
        Seq::empty()
    } else if names_context(args[n - 1]) {
        uses_among(args, creates, n - 1).push(ContextUse { arg: args[n - 1], creates })
    } else {
        uses_among(args, creates, n - 1)
    }
}

/// Whether a call creates the context it names.
pub open spec fn creates_context(call: CommandCall) -> bool {
    call.cmd.behaviour is NewContext
}

/// The arguments of the first `n` calls that name a context, in order.
pub open spec fn context_uses(calls: Seq<CommandCall>, n: int) -> Seq<ContextUse>
    decreases n,
{
    if n <= 0 {
        Seq::empty()
    } else {
        let args = flattened_args(calls[n - 1].args@);
        context_uses(calls, n - 1) + uses_among(
            args,
            creates_context(calls[n - 1]),
            args.len() as int,
        )
    }
}

/// Every argument of a document that names a context.
pub open spec fn uses_of(document: Document) -> Seq<ContextUse> {
    context_uses(document.calls(), document.calls().len() as int)
}

/// Which uses cover an offset.
pub open spec fn use_covers(uses: Seq<ContextUse>, offset: int) -> spec_fn(int) -> bool {
    |k: int| arg_view(uses[k].arg).place().has(offset)
}

/// The argument at a position that names a context.
pub open spec fn context_at(document: Document, position: Position) -> Option<Arg> {
    match offset_of(document.bytes(), position) {
        Some(offset) => {
            let uses = uses_of(document);
            match first_from(0, uses.len() as int, use_covers(uses, offset)) {
                Some(k) => Some(uses[k as int].arg),
                None => None,
            }
        },
        None => None,
    }
}

/// A span without the quotes at its ends, where it has them.
pub open spec fn without_quotes(bytes: Seq<u8>, span: Span) -> Span {
    if span.start + 2 <= span.end <= bytes.len() && bytes[span.start as int] == 34 && bytes[span.end
        - 1] == 34 {
        Span { start: (span.start + 1) as usize, end: (span.end - 1) as usize }
    } else {
        span
    }
}

/// Where the first `n` uses name the context type `name`.
pub open spec fn type_uses(uses: Seq<ContextUse>, name: Seq<char>, n: int) -> Seq<Span>
    decreases n,
{
    if n <= 0 {
        Seq::empty()
    } else {
        let before = type_uses(uses, name, n - 1);
        match uses[n - 1].arg {
            Arg::ContextType { span, name: found } => if found@ == name {
                before.push(span)
            } else {
                before
            },
            _ => before,
        }
    }
}

/// Where the first `n` uses refer to the instance `name`, without creating it.
pub open spec fn instance_uses(bytes: Seq<u8>, uses: Seq<ContextUse>, name: Seq<char>, n: int) -> Seq<
    Span,
>
    decreases n,
{
    if n <= 0 {
        Seq::empty()
    } else {
        let before = instance_uses(bytes, uses, name, n - 1);
        match uses[n - 1].arg {
            Arg::ContextName { span, name: found } => if found@ == name && !uses[n - 1].creates {
                before.push(without_quotes(bytes, span))
            } else {
                before
            },
            _ => before,
        }
    }
}

/// An argument that names a context, and whether its call creates it.
struct Named<'a> {
    arg: &'a Arg,
    creates: bool,
}

spec fn uses_in(named: Seq<Named>) -> Seq<ContextUse> {
    named.map_values(|one: Named| ContextUse { arg: *one.arg, creates: one.creates })
}

/// The range of each of a list of spans.
fn ranges(lines: &LineIndex, spans: &Vec<Span>) -> (r: Vec<Range>)
    requires
        lines.wf(),
    ensures
        r@ == ranges_of(lines.bytes(), spans@),
{
    let mut out: Vec<Range> = Vec::new();
    let mut k: usize = 0;
    while k < spans.len()
        invariant
            lines.wf(),
            k <= spans@.len(),
            out@ == ranges_of(lines.bytes(), spans@.subrange(0, k as int)),
        decreases spans.len() - k,
    {
        out.push(lines.range_of(spans[k]));
        assert(out@ =~= ranges_of(lines.bytes(), spans@.subrange(0, k + 1)));
        k = k + 1;
    }
    assert(spans@.subrange(0, k as int) =~= spans@);
    out
}

impl Document {
    /// The path under `position`, if a file is included there.
    pub fn include_at(&self, position: Position) -> (r: Option<&str>)
        requires
            self.wf(),
        ensures
            match r {
                Some(path) => path_at(*self, position) == Some(path@),
                None => path_at(*self, position) is None,
            },
    {
        match self.line_index.offset_at(position) {
            Some(offset) => {
                let files = &self.includes;
                let ghost fits = path_covers(files@, offset as int);
                let mut k: usize = 0;
                while k < files.len()
                    invariant
                        *files == self.includes,
                        k <= files@.len(),
                        offset_of(self.bytes(), position) == Some(offset as int),
                        fits == path_covers(files@, offset as int),
                        first_from(0, files@.len() as int, fits) == first_from(
                            k as int,
                            files@.len() as int,
                            fits,
                        ),
                    decreases files.len() - k,
                {
                    if files[k].span.contains(offset) {
                        assert(fits(k as int));
                        return Some(files[k].path.as_str());
                    }
                    k = k + 1;
                }
                None
            },
            None => None,
        }
    }

    /// The bracket that node `i` goes with.
    fn matching_bracket(&self, i: usize) -> (r: Option<usize>)
        requires
            self.wf(),
            i < self.nodes().len(),
        ensures
            r == bracket_match(self.nodes(), i as int),
            r is Some ==> r->0 < self.nodes().len(),
    {
        let tree = &self.tree;
        let ghost nodes = self.nodes();
        match other_bracket(tree.nodes[i].kind.as_str()) {
            Some((kind, open)) => match tree.parent(i) {
                Some(parent) => {
                    let row = tree.children(parent);
                    let at = tree.nodes[i].start;
                    if open {
                        let ghost fits = kind_after(nodes, row@, kind@, at);
                        let mut k: usize = 0;
                        while k < row.len()
                            invariant
                                tree == self.tree,
                                nodes == self.nodes(),
                                i < nodes.len(),
                                at == nodes[i as int].start,
                                counterpart(nodes[i as int].kind@) == Some((kind@, true)),
                                parent_of(nodes, i as int) == Some(parent),
                                row@ == children_of(nodes, parent as int),
                                forall|k: int|
                                    0 <= k < row@.len() ==> (#[trigger] row@[k]) < nodes.len(),
                                k <= row@.len(),
                                fits == kind_after(nodes, row@, kind@, at),
                                first_from(0, row@.len() as int, fits) == first_from(
                                    k as int,
                                    row@.len() as int,
                                    fits,
                                ),
                            decreases row.len() - k,
                        {
                            if tree.is(row[k], kind) && tree.nodes[row[k]].start > at {
                                assert(fits(k as int));
                                return Some(row[k]);
                            }
                            k = k + 1;
                        }
                        None
                    } else {
                        let ghost fits = kind_before(nodes, row@, kind@, at);
                        let mut k: usize = row.len();
                        while k > 0
                            invariant
                                tree == self.tree,
                                nodes == self.nodes(),
                                i < nodes.len(),
                                at == nodes[i as int].start,
                                counterpart(nodes[i as int].kind@) == Some((kind@, false)),
                                parent_of(nodes, i as int) == Some(parent),
                                row@ == children_of(nodes, parent as int),
                                forall|k: int|
                                    0 <= k < row@.len() ==> (#[trigger] row@[k]) < nodes.len(),
                                k <= row@.len(),
                                fits == kind_before(nodes, row@, kind@, at),
                                last_below(row@.len() as int, fits) == last_below(k as int, fits),
                            decreases k,
                        {
                            if tree.is(row[k - 1], kind) && tree.nodes[row[k - 1]].start < at {
                                assert(fits(k - 1));
                                return Some(row[k - 1]);
                            }
                            k = k - 1;
                        }
                        None
                    }
                },
                None => None,
            },
            None => None,
        }
    }

    /// The ranges of the bracket at `position` and of the one it goes with; `None` where the
    /// position is on no bracket, or on one that goes with none.
    pub fn bracket_at(&self, position: Position) -> (r: Option<(Range, Range)>)
        requires
            self.wf(),
        ensures
            r == brackets_at(*self, position),
    {
        match self.line_index.offset_at(position) {
            Some(offset) => match self.tree.descendant_for_byte_range(offset, offset) {
                Some(i) => match self.matching_bracket(i) {
                    Some(other) => Some(
                        (
                            self.line_index.range_of(self.tree.span(i)),
                            self.line_index.range_of(self.tree.span(other)),
                        ),
                    ),
                    None => None,
                },
                None => None,
            },
            None => None,
        }
    }

    /// The name of the definition or reference under `position`, if any.
    pub fn symbol_at(&self, position: Position) -> (r: Option<&str>)
        requires
            self.wf(),
        ensures
            match r {
                Some(name) => name_at_position(*self, position) == Some(name@),
                None => name_at_position(*self, position) is None,
            },
    {
        match self.line_index.offset_at(position) {
            Some(offset) => match find_symbol(&self.definitions, offset) {
                Some(name) => Some(name),
                None => find_symbol(&self.references, offset),
            },
            None => None,
        }
    }

    /// Everywhere the document defines `name`, in source order.
    fn spans_defining(&self, name: &str) -> (r: Vec<Span>)
        ensures
            r@ == defined_at(*self, name@),
    {
        match self.commands_defined.get(name) {
            Some(command) => definition_spans(&command),
            None => Vec::new(),
        }
    }

    /// The definitions of `name`, in source order.
    pub fn definition_ranges(&self, name: &str) -> (r: Vec<Range>)
        requires
            self.wf(),
        ensures
            r@ == ranges_of(self.bytes(), defined_at(*self, name@)),
    {
        let spans = self.spans_defining(name);
        ranges(&self.line_index, &spans)
    }

    /// The definition of `name` in effect at the offset `at`: the last one written at or before it.
    /// A later definition does not erase an earlier one; it replaces it from where it appears.
    ///
    /// `at` is `None` when the reference is in another file: then every definition of this one
    /// comes before it. A reference before every definition is offered the first, since somewhere
    /// to look beats a dead end.
    pub fn definition_in_effect(&self, name: &str, at: Option<usize>) -> (r: Option<Range>)
        requires
            self.wf(),
        ensures
            r == match in_effect(defined_at(*self, name@), at) {
                Some(span) => Some(range_between(self.bytes(), span)),
                None => None,
            },
    {
        let spans = self.spans_defining(name);
        if spans.len() == 0 {
            return None;
        }
        let found = match at {
            Some(at) => {
                let mut n: usize = 0;
                assert(spans@.subrange(0, spans@.len() as int) =~= spans@);
                proof {
                    lemma_leading(spans@, at as int);
                }
                while n < spans.len() && spans[n].start <= at
                    invariant
                        n <= spans@.len(),
                        leading(spans@, at as int) == n + leading(
                            spans@.subrange(n as int, spans@.len() as int),
                            at as int,
                        ),
                    decreases spans.len() - n,
                {
                    assert(spans@.subrange(n as int, spans@.len() as int).drop_first()
                        =~= spans@.subrange(n + 1, spans@.len() as int));
                    n = n + 1;
                }
                if n == 0 {
                    spans[0]
                } else {
                    spans[n - 1]
                }
            },
            None => spans[spans.len() - 1],
        };
        Some(self.line_index.range_of(found))
    }

    /// The references to `name`, in source order.
    pub fn reference_ranges(&self, name: &str) -> (r: Vec<Range>)
        requires
            self.wf(),
        ensures
            r@ == ranges_of(
                self.bytes(),
                bears(self.references@, name@, self.references@.len() as int),
            ),
    {
        let mut spans: Vec<Span> = Vec::new();
        let mut k: usize = 0;
        while k < self.references.len()
            invariant
                k <= self.references@.len(),
                spans@ == bears(self.references@, name@, k as int),
            decreases self.references.len() - k,
        {
            if same(self.references[k].name.as_str(), name) {
                spans.push(self.references[k].span);
            }
            k = k + 1;
        }
        ranges(&self.line_index, &spans)
    }

    /// Every argument that names a context.
    fn context_args(&self) -> (r: Vec<Named<'_>>)
        ensures
            uses_in(r@) == uses_of(*self),
    {
        let calls = &self.notes.commands.calls;
        let mut out: Vec<Named> = Vec::new();
        assert(uses_in(out@) =~= Seq::empty());
        let mut n: usize = 0;
        while n < calls.len()
            invariant
                *calls == self.notes.commands.calls,
                n <= calls@.len(),
                uses_in(out@) == context_uses(calls@, n as int),
            decreases calls.len() - n,
        {
            let creates = matches!(calls[n].cmd.behaviour, Behaviour::NewContext);
            let args = flat_args(&calls[n].args);
            let ghost before = uses_in(out@);
            let ghost flat = args@.unref();
            let mut k: usize = 0;
            assert(before + uses_among(flat, creates, 0) =~= before);
            while k < args.len()
                invariant
                    k <= args@.len(),
                    flat == args@.unref(),
                    uses_in(out@) == before + uses_among(flat, creates, k as int),
                decreases args.len() - k,
            {
                let arg = args[k];
                assert(*arg == flat[k as int]);
                if matches!(arg, Arg::ContextType { .. } | Arg::ContextName { .. }) {
                    let ghost last = uses_in(out@);
                    out.push(Named { arg, creates });
                    assert(uses_in(out@) =~= last.push(ContextUse { arg: *arg, creates }));
                    assert(uses_in(out@) =~= before + uses_among(flat, creates, k + 1));
                }
                k = k + 1;
            }
            n = n + 1;
        }
        out
    }

    /// The argument at `position` that names a context type or instance.
    pub fn context_arg_at(&self, position: Position) -> (r: Option<&Arg>)
        requires
            self.wf(),
        ensures
            match r {
                Some(arg) => context_at(*self, position) == Some(*arg) && names_context(*arg),
                None => context_at(*self, position) is None,
            },
    {
        match self.line_index.offset_at(position) {
            Some(offset) => {
                let named = self.context_args();
                let ghost uses = uses_of(*self);
                let ghost fits = use_covers(uses, offset as int);
                let mut k: usize = 0;
                while k < named.len()
                    invariant
                        k <= named@.len(),
                        uses == uses_of(*self),
                        uses == uses_in(named@),
                        offset_of(self.bytes(), position) == Some(offset as int),
                        fits == use_covers(uses, offset as int),
                        first_from(0, uses.len() as int, fits) == first_from(
                            k as int,
                            uses.len() as int,
                            fits,
                        ),
                    decreases named.len() - k,
                {
                    assert(uses[k as int] == (ContextUse {
                        arg: *named@[k as int].arg,
                        creates: named@[k as int].creates,
                    }));
                    if named[k].arg.span().contains(offset) {
                        assert(fits(k as int));
                        proof {
                            lemma_uses_name(self.calls(), self.calls().len() as int, k as int);
                        }
                        return Some(named[k].arg);
                    }
                    k = k + 1;
                }
                None
            },
            None => None,
        }
    }

    /// The context type that a call names at `position`.
    pub fn context_type_at(&self, position: Position) -> (r: Option<&str>)
        requires
            self.wf(),
        ensures
            match r {
                Some(name) => context_at(*self, position) matches Some(
                    Arg::ContextType { name: found, .. },
                ) && found@ == name@,
                None => !(context_at(*self, position) matches Some(Arg::ContextType { .. })),
            },
    {
        match self.context_arg_at(position) {
            Some(Arg::ContextType { name, .. }) => Some(name.as_str()),
            _ => None,
        }
    }

    /// The context instance that a call names at `position`.
    pub fn context_name_at(&self, position: Position) -> (r: Option<&str>)
        requires
            self.wf(),
        ensures
            match r {
                Some(name) => context_at(*self, position) matches Some(
                    Arg::ContextName { name: found, .. },
                ) && found@ == name@,
                None => !(context_at(*self, position) matches Some(Arg::ContextName { .. })),
            },
    {
        match self.context_arg_at(position) {
            Some(Arg::ContextName { name, .. }) => Some(name.as_str()),
            _ => None,
        }
    }

    /// Where the document declares the context type `name`.
    pub fn context_type_declaration(&self, name: &str) -> (r: Option<Range>)
        requires
            self.wf(),
        ensures
            r == match type_among(self.commands_defined.context_types@, name@) {
                Some(i) => Some(
                    range_between(
                        self.bytes(),
                        self.commands_defined.context_types@[i].name_span,
                    ),
                ),
                None => None,
            },
    {
        match find_type(&self.commands_defined.context_types, name) {
            Some(i) => Some(
                self.line_index.range_of(self.commands_defined.context_types[i].name_span),
            ),
            None => None,
        }
    }

    /// Where the document creates the context instance `name`.
    pub fn context_instance_creation(&self, name: &str) -> (r: Option<Range>)
        requires
            self.wf(),
        ensures
            r == match instance_among(self.commands_defined.context_instances@, name@) {
                Some(i) => Some(
                    range_between(
                        self.bytes(),
                        self.commands_defined.context_instances@[i].span,
                    ),
                ),
                None => None,
            },
    {
        match find_instance(&self.commands_defined.context_instances, name) {
            Some(i) => Some(
                self.line_index.range_of(self.commands_defined.context_instances[i].span),
            ),
            None => None,
        }
    }

    /// Everywhere a call names the context type `name`.
    pub fn context_type_reference_ranges(&self, name: &str) -> (r: Vec<Range>)
        requires
            self.wf(),
        ensures
            r@ == ranges_of(
                self.bytes(),
                type_uses(uses_of(*self), name@, uses_of(*self).len() as int),
            ),
    {
        let named = self.context_args();
        let ghost uses = uses_of(*self);
        let mut spans: Vec<Span> = Vec::new();
        let mut k: usize = 0;
        while k < named.len()
            invariant
                k <= named@.len(),
                uses == uses_in(named@),
                spans@ == type_uses(uses, name@, k as int),
            decreases named.len() - k,
        {
            assert(uses[k as int].arg == *named@[k as int].arg);
            match named[k].arg {
                Arg::ContextType { span, name: found } => {
                    if same(found.as_str(), name) {
                        spans.push(*span);
                    }
                },
                _ => {},
            }
            k = k + 1;
        }
        ranges(&self.line_index, &spans)
    }

    /// Everywhere a call refers to the context instance `name`, leaving out the calls that create
    /// it.
    pub fn context_instance_reference_ranges(&self, name: &str) -> (r: Vec<Range>)
        requires
            self.wf(),
        ensures
            r@ == ranges_of(
                self.bytes(),
                instance_uses(
                    self.bytes(),
                    uses_of(*self),
                    name@,
                    uses_of(*self).len() as int,
                ),
            ),
    {
        let named = self.context_args();
        let ghost uses = uses_of(*self);
        let bytes = self.text.as_str().as_bytes();
        let mut spans: Vec<Span> = Vec::new();
        let mut k: usize = 0;
        while k < named.len()
            invariant
                k <= named@.len(),
                bytes@ == self.bytes(),
                uses == uses_in(named@),
                spans@ == instance_uses(bytes@, uses, name@, k as int),
            decreases named.len() - k,
        {
            assert(uses[k as int].arg == *named@[k as int].arg);
            assert(uses[k as int].creates == named@[k as int].creates);
            match named[k].arg {
                Arg::ContextName { span, name: found } => {
                    if same(found.as_str(), name) && !named[k].creates {
                        let quoted = span.start < span.end && span.end - span.start >= 2 && span.end
                            <= bytes.len() && bytes[span.start] == 34 && bytes[span.end - 1] == 34;
                        if quoted {
                            spans.push(Span::new(span.start + 1, span.end - 1));
                        } else {
                            spans.push(*span);
                        }
                    }
                },
                _ => {},
            }
            k = k + 1;
        }
        ranges(&self.line_index, &spans)
    }
}

proof fn lemma_uses_among(args: Seq<Arg>, creates: bool, n: int)
    ensures
        forall|k: int|
            0 <= k < uses_among(args, creates, n).len() ==> names_context(
                (#[trigger] uses_among(args, creates, n)[k]).arg,
            ),
    decreases n,
{
    if n > 0 {
        lemma_uses_among(args, creates, n - 1);
    }
}

proof fn lemma_uses_name(calls: Seq<CommandCall>, n: int, k: int)
    requires
        0 <= k < context_uses(calls, n).len(),
    ensures
        names_context(context_uses(calls, n)[k].arg),
    decreases n,
{
    if n > 0 {
        let args = flattened_args(calls[n - 1].args@);
        let creates = creates_context(calls[n - 1]);
        lemma_uses_among(args, creates, args.len() as int);
        let before = context_uses(calls, n - 1);
        if k < before.len() {
            lemma_uses_name(calls, n - 1, k);
        } else {
            let here = uses_among(args, creates, args.len() as int);
            assert(context_uses(calls, n)[k] == here[k - before.len()]);
        }
    }
}

} // verus!
