//! Parsing a command call: resolving its keyword and reading its arguments.
use vstd::prelude::*;
use crate::command::reader::{Run, RunView, argument_at, arguments_at, consume_arg, consume_params};
use crate::command::{
    Arg, ArgKind, ArgView, Behaviour, Command, CommandCall, Param, arg_view, arg_views,
    lemma_arg_views, lemma_arg_views_push,
};
use crate::line_struct::Span;
use crate::syntax::{children_of, span_of};
use crate::text::{cut, cut_of, same};
use crate::vocabulary::{Scope, lookup_in};

verus! {

/// Reads arguments one after another, from where the last one ended.
pub struct ArgReader<'a> {
    pub run: Run<'a>,
    pub next: usize,
}

impl<'a> ArgReader<'a> {
    pub open spec fn wf(self) -> bool {
        self.run.wf() && self.next <= self.run.children@.len()
    }

    pub fn new(run: Run<'a>, start: usize) -> (r: Self)
        requires
            run.wf(),
            start <= run.children@.len(),
        ensures
            r.wf(),
            r.run == run,
            r.next == start,
    {
        Self { run, next: start }
    }

    /// The next argument, if it is of kind `kind`; otherwise the reader stays where it is.
    pub fn take(&mut self, kind: &ArgKind) -> (r: Option<Arg>)
        requires
            old(self).wf(),
        ensures
            final(self).wf(),
            final(self).run == old(self).run,
            match r {
                Some(arg) => argument_at(*kind, old(self).run@, old(self).next as int) == Some(
                    (arg_view(arg), final(self).next as int),
                ),
                None => argument_at(*kind, old(self).run@, old(self).next as int) is None && final(self).next == old(self).next,
            },
    {
        match consume_arg(kind, &self.run, self.next) {
            Some((arg, next)) => {
                self.next = next;
                Some(arg)
            },
            None => None,
        }
    }

    /// The next node, without reading it.
    pub fn peek(&self) -> (r: Option<usize>)
        requires
            self.wf(),
        ensures
            r == if self.run@.has(self.next as int) {
                Some(self.run.children@[self.next as int])
            } else {
                None
            },
    {
        if self.next < self.run.children.len() {
            Some(self.run.children[self.next])
        } else {
            None
        }
    }

    /// The source of the next node, without reading it.
    pub fn peek_text(&self) -> (r: Option<&'a str>)
        requires
            self.wf(),
        ensures
            match r {
                Some(text) => self.run@.has(self.next as int) && text@ == self.run@.source(
                    self.next as int,
                ),
                None => !self.run@.has(self.next as int),
            },
    {
        if self.next < self.run.children.len() {
            let node = self.run.children[self.next];
            Some(cut(self.run.src, self.run.tree.nodes[node].start, self.run.tree.nodes[node].end))
        } else {
            None
        }
    }

    /// Steps over the next node, whatever it is.
    pub fn skip_one(&mut self) -> (r: Option<Span>)
        requires
            old(self).wf(),
        ensures
            final(self).wf(),
            final(self).run == old(self).run,
            match r {
                Some(span) => old(self).run@.has(old(self).next as int) && span == old(self).run@.place(old(self).next as int) && final(self).next == old(self).next + 1,
                None => !old(self).run@.has(old(self).next as int) && final(self).next == old(self).next,
            },
    {
        if self.next < self.run.children.len() {
            let span = self.run.tree.span(self.run.children[self.next]);
            self.next = self.next + 1;
            Some(span)
        } else {
            None
        }
    }

    /// Steps over the punctuation `text`, if it is next.
    pub fn take_punct(&mut self, text: &str) -> (r: bool)
        requires
            old(self).wf(),
        ensures
            final(self).wf(),
            final(self).run == old(self).run,
            r == old(self).run@.is_mark(old(self).next as int, text@),
            final(self).next == old(self).next + if r {
                1int
            } else {
                0int
            },
    {
        if self.next < self.run.children.len() {
            let node = self.run.children[self.next];
            if self.run.tree.is(node, "punctuation") && same(
                cut(self.run.src, self.run.tree.nodes[node].start, self.run.tree.nodes[node].end),
                text,
            ) {
                self.next = self.next + 1;
                return true;
            }
        }
        false
    }

    pub fn position(&self) -> (r: usize)
        ensures
            r == self.next,
    {
        self.next
    }
}

/// Reads what a signature calls for: an optional parameter that is not there is skipped, a
/// required one ends the reading.
pub fn default_parse(signature: &Vec<Param>, args: &mut ArgReader) -> (r: Vec<Arg>)
    requires
        old(args).wf(),
    ensures
        final(args).wf(),
        final(args).run == old(args).run,
        (arg_views(r@), final(args).next as int) == arguments_at(
            signature@,
            old(args).run@,
            old(args).next as int,
        ),
{
    let (out, next) = consume_params(signature, &args.run, args.next);
    args.next = next;
    out
}

/// One argument behind another run of them.
pub open spec fn then_argument(
    before: (Seq<ArgView>, int),
    found: Option<(ArgView, int)>,
) -> (Seq<ArgView>, int) {
    match found {
        Some((arg, next)) => (before.0.push(arg), next),
        None => before,
    }
}

/// The `= "name"` clause of `\new` and `\context` at `i`: the `=`, and the name if it is there.
pub open spec fn name_clause_at(run: RunView, i: int) -> Option<(ArgView, int)> {
    if run.is_mark(i, "="@) {
        let equals = ArgView::Literal { span: run.place(i) };
        match argument_at(ArgKind::ContextName, run, i + 1) {
            Some((name, next)) => Some(
                (
                    ArgView::Group {
                        span: Span { start: run.place(i).start, end: name.place().end },
                        args: seq![equals, name],
                    },
                    next,
                ),
            ),
            None => Some((ArgView::Group { span: run.place(i), args: seq![equals] }, i + 1)),
        }
    } else {
        None
    }
}

/// A `\with { … }` block at `i`, as one argument of no modelled shape.
pub open spec fn with_block_at(run: RunView, i: int) -> Option<(ArgView, int)> {
    if run.has(i) && run.source(i) == "\\with"@ {
        if run.has(i + 1) {
            Some(
                (
                    ArgView::Unknown {
                        span: Span { start: run.place(i).start, end: run.place(i + 1).end },
                    },
                    i + 2,
                ),
            )
        } else {
            Some((ArgView::Unknown { span: run.place(i) }, i + 1))
        }
    } else {
        None
    }
}

/// The arguments of `\new` and `\context` from `i` on: the context type, then the name clause, the
/// `\with` block and the music, each if it is there.
pub open spec fn new_context_arguments_at(run: RunView, i: int) -> (Seq<ArgView>, int) {
    match argument_at(ArgKind::ContextType, run, i) {
        None => (Seq::empty(), i),
        Some((context_type, next)) => {
            let typed = (seq![context_type], next);
            let named = then_argument(typed, name_clause_at(run, typed.1));
            let with = then_argument(named, with_block_at(run, named.1));
            then_argument(with, argument_at(ArgKind::Music, run, with.1))
        },
    }
}

/// The context type of a `\change` at `i`: a word, alone or as the left-hand side of an
/// assignment.
pub open spec fn changed_type_at(run: RunView, i: int) -> Option<(ArgView, int)> {
    match argument_at(ArgKind::ContextType, run, i) {
        Some(found) => Some(found),
        None => if run.is_kind(i, "assignment_lhs"@) {
            Some((ArgView::ContextType { span: run.place(i), name: run.source(i) }, i + 1))
        } else {
            None
        },
    }
}

/// The arguments of `\change` from `i` on: the context type, and the name behind an `=`.
pub open spec fn change_arguments_at(run: RunView, i: int) -> (Seq<ArgView>, int) {
    match changed_type_at(run, i) {
        None => (Seq::empty(), i),
        Some((context_type, next)) => if run.is_mark(next, "="@) {
            then_argument(
                (seq![context_type], next + 1),
                argument_at(ArgKind::ContextName, run, next + 1),
            )
        } else {
            (seq![context_type], next)
        },
    }
}

/// The arguments a command reads from `i` on, and the first node past them.
pub open spec fn command_arguments_at(command: Command, run: RunView, i: int) -> (Seq<ArgView>, int) {
    match command.behaviour {
        Behaviour::NewContext => new_context_arguments_at(run, i),
        Behaviour::Change => change_arguments_at(run, i),
        _ => arguments_at(command.params@, run, i),
    }
}

proof fn lemma_one_arg(arg: Arg)
    ensures
        arg_views(seq![arg]) == seq![arg_view(arg)],
{
    assert(seq![arg].drop_first() =~= Seq::empty());
    reveal_with_fuel(arg_views, 2);
    assert(arg_views(seq![arg]) =~= seq![arg_view(arg)]);
}

/// Reads the `= "name"` clause of `\new` and `\context`.
fn name_clause(args: &mut ArgReader) -> (r: Option<Arg>)
    requires
        old(args).wf(),
    ensures
        final(args).wf(),
        final(args).run == old(args).run,
        match r {
            Some(arg) => name_clause_at(old(args).run@, old(args).next as int) == Some(
                (arg_view(arg), final(args).next as int),
            ),
            None => name_clause_at(old(args).run@, old(args).next as int) is None && final(args).next
                == old(args).next,
        },
{
    if !args.take_punct("=") {
        return None;
    }
    let span = args.run.tree.span(args.run.children[args.next - 1]);
    let mut pieces: Vec<Arg> = Vec::new();
    let equals = Arg::Literal { span };
    proof {
        lemma_one_arg(equals);
    }
    pieces.push(equals);
    assert(pieces@ =~= seq![equals]);
    let ghost one = pieces@;
    let mut end: usize = span.end;
    match args.take(&ArgKind::ContextName) {
        Some(name) => {
            end = name.span().end;
            proof {
                lemma_arg_views_push(one, name);
            }
            pieces.push(name);
            assert(arg_views(pieces@) =~= seq![arg_view(equals), arg_view(name)]);
        },
        None => {},
    }
    Some(Arg::Group { span: Span::new(span.start, end), args: pieces })
}

/// Reads a `\with { … }` block. It is not read as music: what it holds are property settings.
fn with_block(args: &mut ArgReader) -> (r: Option<Arg>)
    requires
        old(args).wf(),
    ensures
        final(args).wf(),
        final(args).run == old(args).run,
        match r {
            Some(arg) => with_block_at(old(args).run@, old(args).next as int) == Some(
                (arg_view(arg), final(args).next as int),
            ),
            None => with_block_at(old(args).run@, old(args).next as int) is None && final(args).next
                == old(args).next,
        },
{
    match args.peek_text() {
        Some(text) => {
            if !same(text, "\\with") {
                return None;
            }
        },
        None => {
            return None;
        },
    }
    match args.skip_one() {
        Some(keyword) => {
            let end = match args.skip_one() {
                Some(block) => block.end,
                None => keyword.end,
            };
            Some(Arg::Unknown { span: Span::new(keyword.start, end) })
        },
        None => None,
    }
}

/// Pushes an argument, if there is one.
fn push_found(out: &mut Vec<Arg>, found: Option<Arg>)
    ensures
        arg_views(final(out)@) == match found {
            Some(arg) => arg_views(old(out)@).push(arg_view(arg)),
            None => arg_views(old(out)@),
        },
{
    match found {
        Some(arg) => {
            proof {
                lemma_arg_views_push(out@, arg);
            }
            out.push(arg);
        },
        None => {},
    }
}

fn parse_new_context(args: &mut ArgReader) -> (out: Vec<Arg>)
    requires
        old(args).wf(),
    ensures
        final(args).wf(),
        final(args).run == old(args).run,
        (arg_views(out@), final(args).next as int) == new_context_arguments_at(
            old(args).run@,
            old(args).next as int,
        ),
{
    let mut out: Vec<Arg> = Vec::new();
    let context_type = match args.take(&ArgKind::ContextType) {
        Some(found) => found,
        None => {
            return out;
        },
    };
    proof {
        lemma_one_arg(context_type);
    }
    out.push(context_type);
    assert(out@ =~= seq![context_type]);
    let name = name_clause(args);
    push_found(&mut out, name);
    let with = with_block(args);
    push_found(&mut out, with);
    let music = args.take(&ArgKind::Music);
    push_found(&mut out, music);
    out
}

fn parse_change(args: &mut ArgReader) -> (out: Vec<Arg>)
    requires
        old(args).wf(),
    ensures
        final(args).wf(),
        final(args).run == old(args).run,
        (arg_views(out@), final(args).next as int) == change_arguments_at(
            old(args).run@,
            old(args).next as int,
        ),
{
    let mut out: Vec<Arg> = Vec::new();
    let context_type = match args.take(&ArgKind::ContextType) {
        Some(found) => found,
        None => match args.peek() {
            Some(node) => {
                if !args.run.tree.is(node, "assignment_lhs") {
                    return out;
                }
                let span = args.run.tree.span(node);
                let name = cut(args.run.src, span.start, span.end).to_string();
                let _ = args.skip_one();
                Arg::ContextType { span, name }
            },
            None => {
                return out;
            },
        },
    };
    proof {
        lemma_one_arg(context_type);
    }
    out.push(context_type);
    assert(out@ =~= seq![context_type]);
    if args.take_punct("=") {
        let name = args.take(&ArgKind::ContextName);
        push_found(&mut out, name);
    }
    out
}

impl Command {
    /// Reads the command's arguments.
    pub fn parse_args(&self, args: &mut ArgReader) -> (out: Vec<Arg>)
        requires
            old(args).wf(),
        ensures
            final(args).wf(),
            final(args).run == old(args).run,
            (arg_views(out@), final(args).next as int) == command_arguments_at(
                *self,
                old(args).run@,
                old(args).next as int,
            ),
    {
        match self.behaviour {
            Behaviour::NewContext => parse_new_context(args),
            Behaviour::Change => parse_change(args),
            _ => default_parse(&self.params, args),
        }
    }
}

/// What a call holds.
pub struct CallView {
    pub name: Seq<char>,
    pub keyword: Span,
    pub span: Span,
    pub args: Seq<ArgView>,
    pub cmd: Command,
    pub origin: Seq<char>,
}

impl View for CommandCall {
    type V = CallView;

    open spec fn view(&self) -> CallView {
        CallView {
            name: self.name@,
            keyword: self.keyword,
            span: self.span,
            args: arg_views(self.args@),
            cmd: *self.cmd,
            origin: self.origin@,
        }
    }
}

/// The name an escaped word spells, without its backslash.
pub open spec fn command_name(text: Seq<char>) -> Option<Seq<char>> {
    if text.len() > 0 && text[0] == '\\' {
        Some(text.drop_first())
    } else {
        None
    }
}

/// The call whose keyword is node `keyword` and whose arguments start at `start` of `run`, with
/// the first node past them. None where the keyword is no escaped word, or names nothing known.
pub open spec fn call_at(run: RunView, keyword: int, start: int, scope: Scope) -> Option<
    (CallView, int),
> {
    let node = run.nodes[keyword];
    if node.kind@ != "escaped_word"@ {
        None
    } else {
        match command_name(cut_of(run.src, node.start as int, node.end as int)) {
            None => None,
            Some(name) => match lookup_in(scope.layers@, name) {
                None => None,
                Some((cmd, origin)) => {
                    let (args, next) = command_arguments_at(cmd, run, start);
                    let place = span_of(run.nodes, keyword);
                    let end = if args.len() == 0 {
                        place.end
                    } else {
                        args.last().place().end
                    };
                    Some(
                        (
                            CallView {
                                name,
                                keyword: place,
                                span: Span { start: place.start, end },
                                args,
                                cmd,
                                origin,
                            },
                            next,
                        ),
                    )
                },
            },
        }
    }
}

/// Resolves `keyword` in `scope` and reads the arguments that follow it in `run`.
fn parse_call(run: Run, keyword: usize, start: usize, scope: &Scope) -> (r: Option<
    (CommandCall, usize),
>)
    requires
        run.wf(),
        keyword < run.tree.nodes@.len(),
        start <= run.children@.len(),
    ensures
        match r {
            Some((call, next)) => call_at(run@, keyword as int, start as int, *scope) == Some(
                (call@, next as int),
            ) && next <= run.children@.len(),
            None => call_at(run@, keyword as int, start as int, *scope) is None,
        },
{
    if !run.tree.is(keyword, "escaped_word") {
        return None;
    }
    let place = run.tree.span(keyword);
    let word = cut(run.src, place.start, place.end);
    let chars = crate::text::chars_of(word);
    if chars.len() == 0 || chars[0] != '\\' {
        return None;
    }
    let name = crate::command::reader::strip_backslash(word);
    let (cmd, origin) = match scope.get(name.as_str()) {
        Some(found) => found,
        None => {
            return None;
        },
    };
    let mut reader = ArgReader::new(run, start);
    let args = cmd.parse_args(&mut reader);
    proof {
        lemma_arg_views(args@);
    }
    let end = if args.len() == 0 {
        place.end
    } else {
        args[args.len() - 1].span().end
    };
    let next = reader.position();
    Some(
        (
            CommandCall {
                name,
                keyword: place,
                span: Span::new(place.start, end),
                args,
                cmd,
                origin,
            },
            next,
        ),
    )
}

/// The run that a `named_context` node and the nodes behind it make: what the node holds past its
/// keyword, then its siblings.
pub open spec fn flattened(nodes: Seq<crate::syntax::Node>, children: Seq<usize>, start: int) -> Seq<
    usize,
> {
    let inner = children_of(nodes, children[start] as int);
    inner.subrange(1, inner.len() as int) + children.subrange(start + 1, children.len() as int)
}

/// A position in a flattened run, as a position in the run it came from: all of what the node
/// holds counts as the node.
pub open spec fn unflattened(start: int, inner: int, at: int) -> int {
    if at <= inner {
        start + 1
    } else {
        start + 1 + (at - inner)
    }
}

/// The run that a named context and the nodes behind it make.
pub open spec fn flattened_run(run: RunView, start: int) -> RunView {
    RunView { children: flattened(run.nodes, run.children, start), ..run }
}

/// The call at `start`: of an escaped word, with the arguments behind it, or of a named context,
/// with the arguments inside and behind it. With it goes the first node past the arguments.
pub open spec fn parsed(run: RunView, start: int, scope: Scope) -> Option<(CallView, int)> {
    if run.is_kind(start, "escaped_word"@) {
        call_at(run, run.children[start] as int, start + 1, scope)
    } else if run.is_kind(start, "named_context"@) {
        let inner = children_of(run.nodes, run.children[start] as int);
        if inner.len() == 0 {
            None
        } else {
            match call_at(flattened_run(run, start), inner[0] as int, 0, scope) {
                Some((call, at)) => Some((call, unflattened(start, inner.len() - 1, at))),
                None => None,
            }
        }
    } else {
        None
    }
}

/// Parses the command at `run.children[start]`, consuming as many of its arguments as are present.
/// Returns the structured call and the index of the first node after the arguments consumed.
pub fn parse(run: Run, start: usize, scope: &Scope) -> (r: Option<(CommandCall, usize)>)
    requires
        run.wf(),
        run.children@.len() + run.tree.nodes@.len() < i32::MAX,
    ensures
        match r {
            Some((call, next)) => parsed(run@, start as int, *scope) == Some((call@, next as int)),
            None => parsed(run@, start as int, *scope) is None,
        },
{
    if start >= run.children.len() {
        return None;
    }
    let node = run.children[start];
    if run.tree.is(node, "escaped_word") {
        return parse_call(run, node, start + 1, scope);
    }
    if !run.tree.is(node, "named_context") {
        return None;
    }
    let inner = run.tree.children(node);
    if inner.len() == 0 {
        return None;
    }
    let mut flat: Vec<usize> = Vec::new();
    let mut k: usize = 1;
    assert(flat@ =~= inner@.subrange(1, 1));
    while k < inner.len()
        invariant
            1 <= k <= inner@.len(),
            flat@ == inner@.subrange(1, k as int),
        decreases inner.len() - k,
    {
        flat.push(inner[k]);
        assert(flat@ =~= inner@.subrange(1, k + 1));
        k = k + 1;
    }
    let ghost own = flat@;
    let mut j: usize = start + 1;
    assert(flat@ =~= own + run.children@.subrange(start + 1, start + 1));
    while j < run.children.len()
        invariant
            start + 1 <= j <= run.children@.len(),
            flat@ == own + run.children@.subrange(start + 1, j as int),
        decreases run.children.len() - j,
    {
        flat.push(run.children[j]);
        assert(flat@ =~= own + run.children@.subrange(start + 1, j + 1));
        j = j + 1;
    }
    proof {
        run.tree.lemma_wf();
        crate::syntax::lemma_few_children(run.tree.nodes@, node as int);
        assert(flat@ == flattened(run.tree.nodes@, run.children@, start as int));
        assert forall|m: int| 0 <= m < flat@.len() implies (#[trigger] flat@[m])
            < run.tree.nodes@.len() by {
            if m < own.len() {
                assert(flat@[m] == inner@[m + 1]);
            } else {
                assert(flat@[m] == run.children@[start + 1 + m - own.len()]);
            }
        }
    }
    let other = Run { tree: run.tree, children: &flat, src: run.src, language: run.language };
    match parse_call(other, inner[0], 0, scope) {
        Some((call, at)) => {
            let own_len: usize = inner.len() - 1;
            let next: usize = if at <= own_len {
                start + 1
            } else {
                start + 1 + (at - own_len)
            };
            Some((call, next))
        },
        None => None,
    }
}

} // verus!
