//! What is wrong with a document: syntax errors, notes that are none, calls that cannot be meant,
//! and references to nothing.
use vstd::prelude::*;
use crate::command::behaviour::findings;
use crate::command::calls::{CheckContext, complaint};
use crate::command::CommandCall;
use crate::document::{Document, Symbol};
use crate::notes::Problem;
use crate::protocol::{Diagnostic, DiagnosticView, Severity, diagnostic_views};
use crate::syntax::{Node, children_of, lemma_children, nested, span_of};
use crate::text::{cut, cut_of, same};
use crate::vocabulary::{Scope, lookup_in};

verus! {

/// `before`, then `word` in backquotes.
pub open spec fn quoting(before: Seq<char>, word: Seq<char>) -> Seq<char> {
    before + " `"@ + word + "`"@
}

fn quote(before: &str, word: &str) -> (r: String)
    ensures
        r@ == quoting(before@, word@),
{
    let mut out = before.to_string();
    out.append(" `");
    out.append(word);
    out.append("`");
    out
}

/// A syntax error at node `i`.
pub open spec fn error_at(nodes: Seq<Node>, bytes: Seq<u8>, i: int, message: Seq<char>) -> DiagnosticView {
    complaint(bytes, span_of(nodes, i), Severity::Error, message)
}

pub open spec fn opens(kind: Seq<char>) -> bool {
    kind == "{"@ || kind == "<<"@ || kind == "<"@
}

pub open spec fn shuts(kind: Seq<char>) -> bool {
    kind == "}"@ || kind == ">>"@ || kind == ">"@
}

/// Whether `close` is the closing delimiter that matches the opener `open`.
pub open spec fn matching(open: Seq<char>, close: Seq<char>) -> bool {
    ||| open == "{"@ && close == "}"@
    ||| open == "<<"@ && close == ">>"@
    ||| open == "<"@ && close == ">"@
}

pub fn closes(open: &str, close: &str) -> (r: bool)
    ensures
        r == matching(open@, close@),
{
    (same(open, "{") && same(close, "}")) || (same(open, "<<") && same(close, ">>")) || (same(
        open,
        "<",
    ) && same(close, ">"))
}

/// The delimiters among the first `n` of a row of nodes that are still open, and the complaints
/// about those that closed nothing.
///
/// A quote is its own closer: it closes a string already open, otherwise it opens one.
pub open spec fn balance(nodes: Seq<Node>, bytes: Seq<u8>, row: Seq<usize>, n: int) -> (
    Seq<usize>,
    Seq<DiagnosticView>,
)
    decreases n,
{
    if n <= 0 {
        (Seq::empty(), Seq::empty())
    } else {
        let (open, out) = balance(nodes, bytes, row, n - 1);
        let c = row[n - 1];
        let kind = nodes[c as int].kind@;
        if opens(kind) {
            (open.push(c), out)
        } else if shuts(kind) {
            if open.len() > 0 && matching(nodes[open.last() as int].kind@, kind) {
                (open.drop_last(), out)
            } else {
                (open, out.push(error_at(nodes, bytes, c as int, quoting("unmatched"@, kind))))
            }
        } else if kind == "\""@ {
            if open.len() > 0 && nodes[open.last() as int].kind@ == "\""@ {
                (open.drop_last(), out)
            } else {
                (open.push(c), out)
            }
        } else {
            (open, out)
        }
    }
}

/// The complaints about the first `n` delimiters that were never closed.
pub open spec fn unclosed(nodes: Seq<Node>, bytes: Seq<u8>, open: Seq<usize>, n: int) -> Seq<
    DiagnosticView,
>
    decreases n,
{
    if n <= 0 {
        Seq::empty()
    } else {
        unclosed(nodes, bytes, open, n - 1).push(
            error_at(
                nodes,
                bytes,
                open[n - 1] as int,
                quoting("unclosed"@, nodes[open[n - 1] as int].kind@),
            ),
        )
    }
}

/// The complaints about the delimiters directly under node `i` that are not balanced.
pub open spec fn unbalanced(nodes: Seq<Node>, bytes: Seq<u8>, i: int) -> Seq<DiagnosticView> {
    let row = children_of(nodes, i);
    let (open, out) = balance(nodes, bytes, row, row.len() as int);
    out + unclosed(nodes, bytes, open, open.len() as int)
}

/// The syntax errors in the first `n` children of node `i`.
pub open spec fn errors_among(nodes: Seq<Node>, bytes: Seq<u8>, i: int, n: int) -> Seq<
    DiagnosticView,
>
    decreases nodes[i].past - i, 0int, n,
    when nested(nodes) && 0 <= i < nodes.len() && n <= children_of(nodes, i).len()
    via errors_among_decreases
{
    if n <= 0 {
        Seq::empty()
    } else {
        errors_among(nodes, bytes, i, n - 1) + errors_in(
            nodes,
            bytes,
            children_of(nodes, i)[n - 1] as int,
        )
    }
}

/// The syntax errors in node `i`: a token that was expected and not found, the unbalanced delimiters
/// of a stretch that could not be parsed or, where there are none, the stretch itself, and otherwise
/// those of its children.
pub open spec fn errors_in(nodes: Seq<Node>, bytes: Seq<u8>, i: int) -> Seq<DiagnosticView>
    decreases nodes[i].past - i, 1int, 0int,
    when nested(nodes) && 0 <= i < nodes.len()
{
    if nodes[i].missing {
        seq![error_at(nodes, bytes, i, quoting("missing"@, nodes[i].kind@))]
    } else if nodes[i].error {
        let found = unbalanced(nodes, bytes, i);
        if found.len() == 0 {
            seq![error_at(nodes, bytes, i, "syntax error"@)]
        } else {
            found
        }
    } else if !nodes[i].has_error {
        Seq::empty()
    } else {
        errors_among(nodes, bytes, i, children_of(nodes, i).len() as int)
    }
}

#[via_fn]
proof fn errors_among_decreases(nodes: Seq<Node>, bytes: Seq<u8>, i: int, n: int) {
    if n > 0 {
        lemma_child_is_smaller(nodes, i, n - 1);
    }
}

pub proof fn lemma_child_is_smaller(nodes: Seq<Node>, i: int, k: int)
    requires
        nested(nodes),
        0 <= i < nodes.len(),
        0 <= k < children_of(nodes, i).len(),
    ensures
        ({
            let c = children_of(nodes, i)[k];
            i < c < nodes.len() && 0 <= nodes[c as int].past - c < nodes[i].past - i
        }),
{
    lemma_children(nodes, i);
    let c = children_of(nodes, i)[k] as int;
    assert(i < nodes[i].past <= nodes.len());
    assert(i < c < nodes[i].past);
    assert(nodes[c].past <= nodes[i].past);
    assert(c < nodes[c].past);
}

/// The syntax errors of a tree.
pub open spec fn syntax_errors(nodes: Seq<Node>, bytes: Seq<u8>) -> Seq<DiagnosticView> {
    if nodes[0].has_error {
        errors_in(nodes, bytes, 0)
    } else {
        Seq::empty()
    }
}

/// What is wrong with a note.
pub open spec fn problem_with(text: Seq<char>, bytes: Seq<u8>, problem: Problem) -> DiagnosticView {
    match problem {
        Problem::NotANote(span) => complaint(
            bytes,
            span,
            Severity::Warning,
            "`"@ + cut_of(text, span.start as int, span.end as int) + "` is not a note name"@,
        ),
        Problem::DanglingColon(span) => complaint(
            bytes,
            span,
            Severity::Error,
            "expected a chord modifier or tremolo after `:`"@,
        ),
    }
}

/// What is wrong with the notes.
pub open spec fn note_problems(text: Seq<char>, bytes: Seq<u8>, problems: Seq<Problem>) -> Seq<
    DiagnosticView,
> {
    problems.map_values(|problem: Problem| problem_with(text, bytes, problem))
}

/// What is wrong with the first `n` calls.
pub open spec fn call_findings(calls: Seq<CommandCall>, bytes: Seq<u8>, n: int) -> Seq<
    DiagnosticView,
>
    decreases n,
{
    if n <= 0 {
        Seq::empty()
    } else {
        call_findings(calls, bytes, n - 1) + findings(
            *calls[n - 1].cmd,
            calls[n - 1].args@,
            bytes,
        )
    }
}

/// Everything that a document's own text shows to be wrong.
pub open spec fn wrong_with(document: Document) -> Seq<DiagnosticView> {
    syntax_errors(document.nodes(), document.bytes()) + note_problems(
        document.text@,
        document.bytes(),
        document.notes.problems@,
    ) + call_findings(document.calls(), document.bytes(), document.calls().len() as int)
}

/// A complaint about a reference that nothing answers.
pub open spec fn undefined(bytes: Seq<u8>, reference: Symbol) -> DiagnosticView {
    complaint(
        bytes,
        reference.span,
        Severity::Error,
        "undefined reference to `\\"@ + reference.name@ + "`"@,
    )
}

/// The complaints about those of the first `n` references that `scope` does not know.
pub open spec fn undefined_among(
    references: Seq<Symbol>,
    bytes: Seq<u8>,
    scope: Scope,
    n: int,
) -> Seq<DiagnosticView>
    decreases n,
{
    if n <= 0 {
        Seq::empty()
    } else if lookup_in(scope.layers@, references[n - 1].name@) is Some {
        undefined_among(references, bytes, scope, n - 1)
    } else {
        undefined_among(references, bytes, scope, n - 1).push(undefined(bytes, references[n - 1]))
    }
}

/// Moves everything of `more` behind `out`.
pub fn append_all(out: &mut Vec<Diagnostic>, more: Vec<Diagnostic>)
    ensures
        diagnostic_views(final(out)@) == diagnostic_views(old(out)@) + diagnostic_views(more@),
{
    let ghost before = diagnostic_views(out@);
    let ghost all = more@;
    assert(before =~= before + diagnostic_views(all.subrange(0, 0)));
    for one in it: more
        invariant
            it.seq() == all,
            diagnostic_views(out@) == before + diagnostic_views(
                all.subrange(0, it.index() as int),
            ),
    {
        let ghost k = it.index() as int;
        let ghost last = diagnostic_views(out@);
        out.push(one);
        assert(diagnostic_views(out@) =~= last.push(one@));
        assert(diagnostic_views(all.subrange(0, k + 1)) =~= diagnostic_views(
            all.subrange(0, k),
        ).push(one@));
        assert(diagnostic_views(out@) =~= before + diagnostic_views(all.subrange(0, k + 1)));
    }
    assert(all.subrange(0, all.len() as int) =~= all);
}

impl Document {
    fn syntax_error(&self, i: usize, message: String) -> (r: Diagnostic)
        requires
            self.wf(),
            i < self.nodes().len(),
        ensures
            r@ == error_at(self.nodes(), self.bytes(), i as int, message@),
    {
        let span = self.tree.span(i);
        Diagnostic { range: self.line_index.range_of(span), severity: Severity::Error, message }
    }

    /// Pairs off the bracket and quote tokens directly under a node that could not be parsed, and
    /// complains about each that is left over. Well-formed structures are nodes of their own, so the
    /// loose delimiters are exactly the ones that could not be balanced.
    pub fn unbalanced_delimiters(&self, i: usize) -> (r: Vec<Diagnostic>)
        requires
            self.wf(),
            i < self.nodes().len(),
        ensures
            diagnostic_views(r@) == unbalanced(self.nodes(), self.bytes(), i as int),
    {
        let tree = &self.tree;
        let ghost nodes = self.nodes();
        let ghost bytes = self.bytes();
        let row = tree.children(i);
        let mut pending: Vec<usize> = Vec::new();
        let mut out: Vec<Diagnostic> = Vec::new();
        assert(diagnostic_views(out@) =~= Seq::empty());
        let mut k: usize = 0;
        while k < row.len()
            invariant
                self.wf(),
                tree == self.tree,
                nodes == self.nodes(),
                bytes == self.bytes(),
                k <= row@.len(),
                forall|k: int| 0 <= k < row@.len() ==> (#[trigger] row@[k]) < nodes.len(),
                forall|k: int| 0 <= k < pending@.len() ==> (#[trigger] pending@[k]) < nodes.len(),
                pending@ == balance(nodes, bytes, row@, k as int).0,
                diagnostic_views(out@) == balance(nodes, bytes, row@, k as int).1,
            decreases row.len() - k,
        {
            let c = row[k];
            let kind = tree.nodes[c].kind.as_str();
            if same(kind, "{") || same(kind, "<<") || same(kind, "<") {
                pending.push(c);
            } else if same(kind, "}") || same(kind, ">>") || same(kind, ">") {
                if pending.len() > 0 && closes(
                    tree.nodes[pending[pending.len() - 1]].kind.as_str(),
                    kind,
                ) {
                    pending.pop();
                } else {
                    let ghost before = diagnostic_views(out@);
                    let found = self.syntax_error(c, quote("unmatched", kind));
                    out.push(found);
                    assert(diagnostic_views(out@) =~= before.push(found@));
                }
            } else if same(kind, "\"") {
                if pending.len() > 0 && tree.is(pending[pending.len() - 1], "\"") {
                    pending.pop();
                } else {
                    pending.push(c);
                }
            }
            k = k + 1;
        }
        let ghost unmatched = diagnostic_views(out@);
        let mut m: usize = 0;
        assert(unmatched + unclosed(nodes, bytes, pending@, 0) =~= unmatched);
        while m < pending.len()
            invariant
                self.wf(),
                tree == self.tree,
                nodes == self.nodes(),
                bytes == self.bytes(),
                m <= pending@.len(),
                forall|k: int| 0 <= k < pending@.len() ==> (#[trigger] pending@[k]) < nodes.len(),
                diagnostic_views(out@) == unmatched + unclosed(nodes, bytes, pending@, m as int),
            decreases pending.len() - m,
        {
            let c = pending[m];
            let ghost before = diagnostic_views(out@);
            let found = self.syntax_error(c, quote("unclosed", tree.nodes[c].kind.as_str()));
            out.push(found);
            assert(diagnostic_views(out@) =~= before.push(found@));
            assert(diagnostic_views(out@) =~= unmatched + unclosed(nodes, bytes, pending@, m + 1));
            m = m + 1;
        }
        out
    }

    /// Walks node `i`, complaining about each stretch that could not be parsed and each token that
    /// was expected and not found. Subtrees without an error are left out.
    pub fn collect_syntax_errors(&self, i: usize, out: &mut Vec<Diagnostic>)
        requires
            self.wf(),
            i < self.nodes().len(),
        ensures
            diagnostic_views(final(out)@) == diagnostic_views(old(out)@) + errors_in(
                self.nodes(),
                self.bytes(),
                i as int,
            ),
        decreases self.nodes()[i as int].past - i,
    {
        let ghost nodes = self.nodes();
        let ghost bytes = self.bytes();
        let ghost before = diagnostic_views(out@);
        proof {
            self.tree.lemma_wf();
        }
        if self.tree.nodes[i].missing {
            let message = quote("missing", self.tree.nodes[i].kind.as_str());
            let found = self.syntax_error(i, message);
            out.push(found);
            assert(diagnostic_views(out@) =~= before + seq![found@]);
            return;
        }
        if self.tree.nodes[i].error {
            let found = self.unbalanced_delimiters(i);
            if found.len() == 0 {
                assert(unbalanced(nodes, bytes, i as int).len() == 0);
                let whole = self.syntax_error(i, "syntax error".to_string());
                out.push(whole);
                assert(diagnostic_views(out@) =~= before + seq![whole@]);
            } else {
                assert(unbalanced(nodes, bytes, i as int).len() == found@.len());
                append_all(out, found);
            }
            return;
        }
        if !self.tree.nodes[i].has_error {
            assert(before + Seq::<DiagnosticView>::empty() =~= before);
            return;
        }
        let row = self.tree.children(i);
        let mut k: usize = 0;
        assert(before + errors_among(nodes, bytes, i as int, 0) =~= before);
        while k < row.len()
            invariant
                self.wf(),
                nodes == self.nodes(),
                bytes == self.bytes(),
                nested(nodes),
                i < nodes.len(),
                k <= row@.len(),
                row@ == children_of(nodes, i as int),
                diagnostic_views(out@) == before + errors_among(nodes, bytes, i as int, k as int),
            decreases row.len() - k,
        {
            proof {
                lemma_child_is_smaller(nodes, i as int, k as int);
            }
            let ghost last = diagnostic_views(out@);
            self.collect_syntax_errors(row[k], out);
            assert(diagnostic_views(out@) =~= before + errors_among(
                nodes,
                bytes,
                i as int,
                k + 1,
            ));
            k = k + 1;
        }
    }

    /// What is wrong with the calls of the document. A call's complaint can depend on other calls,
    /// so this looks at the document as a whole.
    pub fn command_diagnostics(&self) -> (r: Vec<Diagnostic>)
        requires
            self.wf(),
        ensures
            diagnostic_views(r@) == call_findings(
                self.calls(),
                self.bytes(),
                self.calls().len() as int,
            ),
    {
        let commands = &self.notes.commands;
        let ctx = CheckContext::new(&self.line_index, commands);
        let mut out: Vec<Diagnostic> = Vec::new();
        assert(diagnostic_views(out@) =~= Seq::empty());
        let mut k: usize = 0;
        while k < commands.calls.len()
            invariant
                self.wf(),
                *commands == self.notes.commands,
                ctx.wf(),
                ctx.lines.bytes() == self.bytes(),
                k <= commands.calls@.len(),
                diagnostic_views(out@) == call_findings(
                    self.calls(),
                    self.bytes(),
                    k as int,
                ),
            decreases commands.calls.len() - k,
        {
            let call = &commands.calls[k];
            let found = call.cmd.check(call, &ctx);
            append_all(&mut out, found);
            k = k + 1;
        }
        out
    }

    /// What is wrong with the document: its syntax errors, the notes that are none, and the calls
    /// that cannot be meant.
    pub fn diagnostics(&self) -> (r: Vec<Diagnostic>)
        requires
            self.wf(),
        ensures
            diagnostic_views(r@) == wrong_with(*self),
    {
        let mut out: Vec<Diagnostic> = Vec::new();
        assert(diagnostic_views(out@) =~= Seq::empty());
        proof {
            self.tree.lemma_root();
        }
        if self.tree.nodes[0].has_error {
            self.collect_syntax_errors(0, &mut out);
        }
        let ghost syntax = syntax_errors(self.nodes(), self.bytes());
        let ghost problems = self.notes.problems@;
        assert(diagnostic_views(out@) =~= syntax);
        let mut k: usize = 0;
        assert(syntax =~= syntax + note_problems(self.text@, self.bytes(), problems.subrange(0, 0)));
        while k < self.notes.problems.len()
            invariant
                self.wf(),
                problems == self.notes.problems@,
                k <= problems.len(),
                diagnostic_views(out@) == syntax + note_problems(
                    self.text@,
                    self.bytes(),
                    problems.subrange(0, k as int),
                ),
            decreases self.notes.problems.len() - k,
        {
            let ghost before = diagnostic_views(out@);
            let problem = self.notes.problems[k];
            let span = problem.span();
            let range = self.line_index.range_of(span);
            let found = match problem {
                Problem::NotANote(_) => {
                    let mut message = "`".to_string();
                    message.append(cut(self.text.as_str(), span.start, span.end));
                    message.append("` is not a note name");
                    Diagnostic { range, severity: Severity::Warning, message }
                },
                Problem::DanglingColon(_) => {
                    let message = "expected a chord modifier or tremolo after `:`".to_string();
                    Diagnostic { range, severity: Severity::Error, message }
                },
            };
            out.push(found);
            assert(found@ == problem_with(self.text@, self.bytes(), problem));
            assert(diagnostic_views(out@) =~= before.push(found@));
            assert(diagnostic_views(out@) =~= syntax + note_problems(
                self.text@,
                self.bytes(),
                problems.subrange(0, k + 1),
            ));
            k = k + 1;
        }
        assert(problems.subrange(0, k as int) =~= problems);
        let calls = self.command_diagnostics();
        append_all(&mut out, calls);
        out
    }

    /// A complaint about every reference that `scope` does not know.
    pub fn undefined_reference_diagnostics(&self, scope: &Scope) -> (r: Vec<Diagnostic>)
        requires
            self.wf(),
        ensures
            diagnostic_views(r@) == undefined_among(
                self.references@,
                self.bytes(),
                *scope,
                self.references@.len() as int,
            ),
    {
        let mut out: Vec<Diagnostic> = Vec::new();
        assert(diagnostic_views(out@) =~= Seq::empty());
        let mut k: usize = 0;
        while k < self.references.len()
            invariant
                self.wf(),
                k <= self.references@.len(),
                diagnostic_views(out@) == undefined_among(
                    self.references@,
                    self.bytes(),
                    *scope,
                    k as int,
                ),
            decreases self.references.len() - k,
        {
            let reference = &self.references[k];
            if !scope.is_known(reference.name.as_str()) {
                let ghost before = diagnostic_views(out@);
                let mut message = "undefined reference to `\\".to_string();
                message.append(reference.name.as_str());
                message.append("`");
                let range = self.line_index.range_of(reference.span);
                let found = Diagnostic { range, severity: Severity::Error, message };
                out.push(found);
                assert(diagnostic_views(out@) =~= before.push(found@));
            }
            k = k + 1;
        }
        out
    }
}

/// A stretch that could not be parsed is never passed over in silence.
pub proof fn law_every_error_is_reported(nodes: Seq<Node>, bytes: Seq<u8>, i: int)
    requires
        nested(nodes),
        0 <= i < nodes.len(),
        nodes[i].missing || nodes[i].error,
    ensures
        errors_in(nodes, bytes, i).len() > 0,
{
}

} // verus!
