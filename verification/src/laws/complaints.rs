//! Diagnostics: what is complained about, where, and that nothing else is.
use vstd::prelude::*;
use crate::command::CommandCall;
use crate::command::behaviour::findings;
use crate::diagnostics::{
    balance, call_findings, errors_among, errors_in, lemma_child_is_smaller, unbalanced, unclosed,
    undefined_among, wrong_with,
};
use crate::document::{Document, Symbol};
use crate::laws::commands::quotes;
use crate::line_struct::range_between;
use crate::notes::Problem;
use crate::protocol::{DiagnosticView, Severity};
use crate::syntax::{Node, children_of, nested, span_of};
use crate::text::cut_of;
use crate::vocabulary::{Scope, lookup_in};

verus! {

/// Whether `closer` is what closes `opener`.
pub open spec fn pair(opener: Seq<char>, closer: Seq<char>) -> bool {
    ||| opener == seq!['{'] && closer == seq!['}']
    ||| opener == seq!['<', '<'] && closer == seq!['>', '>']
    ||| opener == seq!['<'] && closer == seq!['>']
    ||| opener == seq!['"'] && closer == seq!['"']
}

/// Whether a kind of token closes something else than a string.
pub open spec fn only_closes(kind: Seq<char>) -> bool {
    kind == seq!['}'] || kind == seq!['>', '>'] || kind == seq!['>']
}

/// Whether a kind of token is a delimiter.
pub open spec fn delimits(kind: Seq<char>) -> bool {
    kind == seq!['{'] || kind == seq!['<', '<'] || kind == seq!['<'] || kind == seq!['"']
        || only_closes(kind)
}

/// Whether something is an error at node `i` that quotes `word` behind `what`.
pub open spec fn says_of(
    found: DiagnosticView,
    nodes: Seq<Node>,
    bytes: Seq<u8>,
    i: int,
    what: Seq<char>,
    word: Seq<char>,
) -> bool {
    &&& found.range == range_between(bytes, span_of(nodes, i))
    &&& found.severity == Severity::Error
    &&& found.message == what + seq![' ', '`'] + word + seq!['`']
}

pub proof fn lemma_delimiters()
    ensures
        "{"@ == seq!['{'],
        "}"@ == seq!['}'],
        "<<"@ == seq!['<', '<'],
        ">>"@ == seq!['>', '>'],
        "<"@ == seq!['<'],
        ">"@ == seq!['>'],
        "\""@ == seq!['"'],
        " `"@ == seq![' ', '`'],
        "`"@ == seq!['`'],
        seq!['<', '<'].len() == 2,
        seq!['>', '>'].len() == 2,
        forall|a: char, b: char| a != b ==> #[trigger] seq![a] != #[trigger] seq![b],
        seq!['<', '<'] != seq!['>', '>'],
{
    reveal_strlit("{");
    reveal_strlit("}");
    reveal_strlit("<<");
    reveal_strlit(">>");
    reveal_strlit("<");
    reveal_strlit(">");
    reveal_strlit("\"");
    reveal_strlit(" `");
    reveal_strlit("`");
    assert("{"@ =~= seq!['{']);
    assert("}"@ =~= seq!['}']);
    assert("<<"@ =~= seq!['<', '<']);
    assert(">>"@ =~= seq!['>', '>']);
    assert("<"@ =~= seq!['<']);
    assert(">"@ =~= seq!['>']);
    assert("\""@ =~= seq!['"']);
    assert(" `"@ =~= seq![' ', '`']);
    assert("`"@ =~= seq!['`']);
    assert forall|a: char, b: char| a != b implies #[trigger] seq![a] != #[trigger] seq![b] by {
        assert(seq![a][0] == a && seq![b][0] == b);
    }
    assert(seq!['<', '<'][0] == '<' && seq!['>', '>'][0] == '>');
}

/// A delimiter and the one that closes it cancel out, whatever is balanced between them; and so does
/// everything that is no delimiter. A quote opens a string only where none is open.
pub proof fn law_what_is_balanced_is_not_complained_about(
    nodes: Seq<Node>,
    bytes: Seq<u8>,
    row: Seq<usize>,
    a: int,
    b: int,
)
    requires
        0 <= a < b < row.len(),
        pair(nodes[row[a] as int].kind@, nodes[row[b] as int].kind@),
        balance(nodes, bytes, row, b) == balance(nodes, bytes, row, a + 1),
        nodes[row[a] as int].kind@ == seq!['"'] ==> ({
            let open = balance(nodes, bytes, row, a).0;
            open.len() > 0 ==> nodes[open.last() as int].kind@ != seq!['"']
        }),
    ensures
        balance(nodes, bytes, row, b + 1) == balance(nodes, bytes, row, a),
        forall|k: int|
            0 <= k < row.len() && !delimits(nodes[(#[trigger] row[k]) as int].kind@) ==> balance(
                nodes,
                bytes,
                row,
                k + 1,
            ) == balance(nodes, bytes, row, k),
{
    lemma_delimiters();
    let (open, out) = balance(nodes, bytes, row, a);
    assert(balance(nodes, bytes, row, a + 1) == (open.push(row[a]), out));
    assert(open.push(row[a]).drop_last() =~= open);
    assert(balance(nodes, bytes, row, b + 1) == (open, out));
    assert forall|k: int|
        0 <= k < row.len() && !delimits(nodes[(#[trigger] row[k]) as int].kind@) implies balance(
        nodes,
        bytes,
        row,
        k + 1,
    ) == balance(nodes, bytes, row, k) by {}
}

/// A closing delimiter is complained about exactly where the delimiter that is open is not its
/// own.
pub proof fn law_what_closes_nothing_is_unmatched(
    nodes: Seq<Node>,
    bytes: Seq<u8>,
    row: Seq<usize>,
    k: int,
)
    requires
        0 <= k < row.len(),
        only_closes(nodes[row[k] as int].kind@),
    ensures
        ({
            let kind = nodes[row[k] as int].kind@;
            let (open, out) = balance(nodes, bytes, row, k);
            let (later, more) = balance(nodes, bytes, row, k + 1);
            if open.len() > 0 && pair(nodes[open.last() as int].kind@, kind) {
                later == open.drop_last() && more == out
            } else {
                later == open && more.len() == out.len() + 1 && more.drop_last() == out && says_of(
                    more.last(),
                    nodes,
                    bytes,
                    row[k] as int,
                    "unmatched"@,
                    kind,
                )
            }
        }),
{
    lemma_delimiters();
    let (open, out) = balance(nodes, bytes, row, k);
    let (later, more) = balance(nodes, bytes, row, k + 1);
    assert(more.drop_last() =~= out || more == out);
}

/// What is left open is complained about where it opens, after what closed nothing; and there are no
/// other complaints.
pub proof fn law_what_is_left_open_is_unclosed(nodes: Seq<Node>, bytes: Seq<u8>, i: int, k: int)
    ensures
        ({
            let row = children_of(nodes, i);
            let (open, out) = balance(nodes, bytes, row, row.len() as int);
            let all = unbalanced(nodes, bytes, i);
            &&& all.len() == out.len() + open.len()
            &&& all.subrange(0, out.len() as int) == out
            &&& 0 <= k < open.len() ==> says_of(
                all[out.len() + k],
                nodes,
                bytes,
                open[k] as int,
                "unclosed"@,
                nodes[open[k] as int].kind@,
            )
        }),
{
    let row = children_of(nodes, i);
    let (open, out) = balance(nodes, bytes, row, row.len() as int);
    lemma_unclosed(nodes, bytes, open, open.len() as int, k);
    assert(unbalanced(nodes, bytes, i).subrange(0, out.len() as int) =~= out);
}

proof fn lemma_unclosed(nodes: Seq<Node>, bytes: Seq<u8>, open: Seq<usize>, n: int, k: int)
    requires
        0 <= n <= open.len(),
    ensures
        unclosed(nodes, bytes, open, n).len() == n,
        0 <= k < n ==> says_of(
            unclosed(nodes, bytes, open, n)[k],
            nodes,
            bytes,
            open[k] as int,
            "unclosed"@,
            nodes[open[k] as int].kind@,
        ),
    decreases n,
{
    lemma_delimiters();
    if n > 0 {
        lemma_unclosed(nodes, bytes, open, n - 1, k);
    }
}

/// Whether one list of complaints stands in another, one behind the other.
pub open spec fn stands_within(part: Seq<DiagnosticView>, all: Seq<DiagnosticView>) -> bool {
    exists|k: int|
        0 <= k && k + part.len() <= all.len() && part == #[trigger] all.subrange(k, k + part.len())
}

proof fn lemma_within_more(
    part: Seq<DiagnosticView>,
    before: Seq<DiagnosticView>,
    all: Seq<DiagnosticView>,
    behind: Seq<DiagnosticView>,
)
    requires
        stands_within(part, all),
    ensures
        stands_within(part, before + all + behind),
{
    let k = choose|k: int|
        0 <= k && k + part.len() <= all.len() && part == #[trigger] all.subrange(k, k + part.len());
    let whole = before + all + behind;
    let at = before.len() + k;
    assert(whole.subrange(at, at + part.len()) =~= part);
}

proof fn lemma_within_itself(all: Seq<DiagnosticView>)
    ensures
        stands_within(all, all),
{
    assert(all.subrange(0, 0 + all.len() as int) =~= all);
}

proof fn lemma_errors_among(nodes: Seq<Node>, bytes: Seq<u8>, i: int, n: int, k: int)
    requires
        nested(nodes),
        0 <= i < nodes.len(),
        0 <= k < n <= children_of(nodes, i).len(),
    ensures
        stands_within(
            errors_in(nodes, bytes, children_of(nodes, i)[k] as int),
            errors_among(nodes, bytes, i, n),
        ),
    decreases n,
{
    lemma_child_is_smaller(nodes, i, n - 1);
    let before = errors_among(nodes, bytes, i, n - 1);
    let last = errors_in(nodes, bytes, children_of(nodes, i)[n - 1] as int);
    let all = errors_among(nodes, bytes, i, n);
    if k == n - 1 {
        lemma_within_itself(last);
        lemma_within_more(last, before, last, Seq::empty());
        assert(before + last + Seq::<DiagnosticView>::empty() =~= all);
    } else {
        lemma_errors_among(nodes, bytes, i, n - 1, k);
        let part = errors_in(nodes, bytes, children_of(nodes, i)[k] as int);
        lemma_within_more(part, Seq::empty(), before, last);
        assert(Seq::<DiagnosticView>::empty() + before + last =~= all);
    }
}

/// A token that is missing is said to be at its own place; a stretch that could not be parsed is
/// reported by its unbalanced delimiters and without any as a whole; and what is wrong in a part of
/// a node is reported with the node. What has no errors has no complaints.
pub proof fn law_errors_are_reported_where_they_are(
    nodes: Seq<Node>,
    bytes: Seq<u8>,
    i: int,
    k: int,
)
    requires
        nested(nodes),
        0 <= i < nodes.len(),
    ensures
        ({
            let node = nodes[i];
            let found = errors_in(nodes, bytes, i);
            &&& node.missing ==> found.len() == 1 && says_of(
                found[0],
                nodes,
                bytes,
                i,
                "missing"@,
                node.kind@,
            )
            &&& !node.missing && node.error && unbalanced(nodes, bytes, i).len() > 0 ==> found
                == unbalanced(nodes, bytes, i)
            &&& !node.missing && node.error && unbalanced(nodes, bytes, i).len() == 0
                ==> found.len() == 1 && found[0].range == range_between(bytes, span_of(nodes, i))
                && found[0].severity == Severity::Error
            &&& !node.missing && !node.error && !node.has_error ==> found.len() == 0
            &&& !node.missing && !node.error && node.has_error && 0 <= k < children_of(
                nodes,
                i,
            ).len() ==> stands_within(
                errors_in(nodes, bytes, children_of(nodes, i)[k] as int),
                found,
            )
        }),
{
    lemma_delimiters();
    let node = nodes[i];
    if !node.missing && !node.error && node.has_error && 0 <= k < children_of(nodes, i).len() {
        lemma_errors_among(nodes, bytes, i, children_of(nodes, i).len() as int, k);
    }
}

proof fn lemma_call_findings(calls: Seq<CommandCall>, bytes: Seq<u8>, n: int, k: int)
    requires
        0 <= k < n <= calls.len(),
    ensures
        stands_within(
            findings(*calls[k].cmd, calls[k].args@, bytes),
            call_findings(calls, bytes, n),
        ),
    decreases n,
{
    let before = call_findings(calls, bytes, n - 1);
    let all = call_findings(calls, bytes, n);
    let last = all.subrange(before.len() as int, all.len() as int);
    assert(last =~= findings(*calls[n - 1].cmd, calls[n - 1].args@, bytes));
    assert(before + last =~= all);
    if k == n - 1 {
        lemma_within_itself(last);
        lemma_within_more(last, before, last, Seq::empty());
        assert(before + last + Seq::<DiagnosticView>::empty() =~= all);
    } else {
        lemma_call_findings(calls, bytes, n - 1, k);
        lemma_findings_within(calls, bytes, k, before, last);
        assert(Seq::<DiagnosticView>::empty() + before + last =~= all);
    }
}

proof fn lemma_findings_within(
    calls: Seq<CommandCall>,
    bytes: Seq<u8>,
    k: int,
    all: Seq<DiagnosticView>,
    behind: Seq<DiagnosticView>,
)
    requires
        stands_within(findings(*calls[k].cmd, calls[k].args@, bytes), all),
    ensures
        stands_within(
            findings(*calls[k].cmd, calls[k].args@, bytes),
            Seq::<DiagnosticView>::empty() + all + behind,
        ),
{
    assert forall|part: Seq<DiagnosticView>| #[trigger] stands_within(part, all) implies
        stands_within(part, Seq::<DiagnosticView>::empty() + all + behind) by {
        lemma_within_more(part, Seq::empty(), all, behind);
    }
}

/// A word that is no note is a warning at its place, which quotes it.
pub open spec fn warns_of(found: DiagnosticView, document: Document, k: int) -> bool {
    match document.notes.problems@[k] {
        Problem::NotANote(span) => {
            &&& found.range == range_between(document.bytes(), span)
            &&& found.severity == Severity::Warning
            &&& quotes(
                found.message,
                cut_of(document.text@, span.start as int, span.end as int),
            )
        },
        Problem::DanglingColon(span) => {
            &&& found.range == range_between(document.bytes(), span)
            &&& found.severity == Severity::Error
            &&& quotes(found.message, seq![':'])
        },
    }
}

/// All that is wrong with a document is reported: the errors of its tree, then each problem with a
/// note, a warning where a word is no note and an error where a colon has nothing behind it, and
/// then all that is wrong with its calls.
pub proof fn law_all_that_is_wrong_is_reported(document: Document, i: int, k: int)
    ensures
        ({
            let found = wrong_with(document);
            let nodes = document.nodes();
            let errors = if nodes[0].has_error {
                errors_in(nodes, document.bytes(), 0)
            } else {
                Seq::empty()
            };
            let n = errors.len() as int;
            let m = document.notes.problems@.len() as int;
            &&& found.len() >= n + m
            &&& found.subrange(0, n) == errors
            &&& 0 <= i < m ==> warns_of(found[n + i], document, i)
            &&& 0 <= k < document.calls().len() ==> stands_within(
                findings(
                    *document.calls()[k].cmd,
                    document.calls()[k].args@,
                    document.bytes(),
                ),
                found.subrange(n + m, found.len() as int),
            )
        }),
{
    let found = wrong_with(document);
    let nodes = document.nodes();
    let errors = if nodes[0].has_error {
        errors_in(nodes, document.bytes(), 0)
    } else {
        Seq::empty()
    };
    let n = errors.len() as int;
    let m = document.notes.problems@.len() as int;
    let calls = call_findings(document.calls(), document.bytes(), document.calls().len() as int);
    assert(found.subrange(0, n) =~= errors);
    assert(found.subrange(n + m, found.len() as int) =~= calls);
    if 0 <= k < document.calls().len() {
        lemma_call_findings(document.calls(), document.bytes(), document.calls().len() as int, k);
    }
    if 0 <= i < m {
        match document.notes.problems@[i] {
            Problem::NotANote(span) => {
                let word = cut_of(document.text@, span.start as int, span.end as int);
                reveal_strlit("`");
                reveal_strlit("` is not a note name");
                let message = found[n + i].message;
                assert(message == "`"@ + word + "` is not a note name"@);
                assert("` is not a note name"@[0] == '`');
                assert(message.subrange(1, 1 + word.len() as int) =~= word);
            },
            Problem::DanglingColon(span) => {
                let message = found[n + i].message;
                reveal_strlit("expected a chord modifier or tremolo after `:`");
                assert(message == "expected a chord modifier or tremolo after `:`"@);
                let at = message.len() - 2;
                assert(message.subrange(at, at + seq![':'].len()) =~= seq![':']);
            },
        }
    }
}

/// Whether some complaint is an error at a reference that quotes its name behind the backslash.
pub open spec fn says_undefined(found: Seq<DiagnosticView>, bytes: Seq<u8>, reference: Symbol) -> bool {
    exists|k: int|
        {
            &&& 0 <= k < found.len()
            &&& (#[trigger] found[k]).range == range_between(bytes, reference.span)
            &&& found[k].severity == Severity::Error
            &&& quotes(found[k].message, seq!['\\'] + reference.name@)
        }
}

/// Whether a complaint is about one of the first `n` references, and nothing of its name can be
/// seen.
pub open spec fn about_unknown(
    found: DiagnosticView,
    references: Seq<Symbol>,
    bytes: Seq<u8>,
    scope: Scope,
    n: int,
) -> bool {
    exists|j: int|
        0 <= j < n && lookup_in(scope.layers@, (#[trigger] references[j]).name@) is None
            && found.range == range_between(bytes, references[j].span)
}

/// A reference is complained about exactly where nothing that the document can see has its name.
pub proof fn law_a_reference_to_nothing_is_reported(
    references: Seq<Symbol>,
    bytes: Seq<u8>,
    scope: Scope,
    n: int,
)
    requires
        0 <= n <= references.len(),
    ensures
        ({
            let found = undefined_among(references, bytes, scope, n);
            &&& forall|j: int|
                0 <= j < n && lookup_in(scope.layers@, (#[trigger] references[j]).name@) is None
                    ==> says_undefined(found, bytes, references[j])
            &&& forall|k: int|
                0 <= k < found.len() ==> about_unknown(
                    #[trigger] found[k],
                    references,
                    bytes,
                    scope,
                    n,
                )
            &&& found.len() <= n
        }),
    decreases n,
{
    if n > 0 {
        law_a_reference_to_nothing_is_reported(references, bytes, scope, n - 1);
        let before = undefined_among(references, bytes, scope, n - 1);
        let found = undefined_among(references, bytes, scope, n);
        let last = references[n - 1];
        if lookup_in(scope.layers@, last.name@) is None {
            reveal_strlit("undefined reference to `\\");
            reveal_strlit("`");
            let head = "undefined reference to `\\"@;
            let message = found[found.len() - 1].message;
            let word = seq!['\\'] + last.name@;
            let at = head.len() - 1;
            assert(message == head + last.name@ + "`"@);
            assert(head[at] == '\\' && head[at - 1] == '`');
            assert(message.subrange(at, at + word.len()) =~= word);
            assert(message[at - 1] == '`' && message[at + word.len()] == '`');
            assert(quotes(message, word));
        }
        assert forall|j: int|
            0 <= j < n && lookup_in(scope.layers@, (#[trigger] references[j]).name@) is None implies
            says_undefined(found, bytes, references[j]) by {
            if j < n - 1 {
                assert(says_undefined(before, bytes, references[j]));
                let k = choose|k: int|
                    {
                        &&& 0 <= k < before.len()
                        &&& (#[trigger] before[k]).range == range_between(
                            bytes,
                            references[j].span,
                        )
                        &&& before[k].severity == Severity::Error
                        &&& quotes(before[k].message, seq!['\\'] + references[j].name@)
                    };
                assert(found[k] == before[k]);
            } else {
                assert(found[found.len() - 1].range == range_between(bytes, references[j].span));
            }
        }
        assert forall|k: int| 0 <= k < found.len() implies about_unknown(
            #[trigger] found[k],
            references,
            bytes,
            scope,
            n,
        ) by {
            if k < before.len() {
                assert(about_unknown(before[k], references, bytes, scope, n - 1));
            } else {
                assert(lookup_in(scope.layers@, references[n - 1].name@) is None);
            }
        }
    }
}

} // verus!
