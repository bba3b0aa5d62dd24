//! Finding one's way: from a name to its definitions and back, between brackets, and renaming.
use vstd::prelude::*;
use crate::command::{Arg, CommandCall, arg_view};
use crate::command::calls::flattened_args;
use crate::document::{Document, Symbol};
use crate::document_graph::{
    File, FileEditView, Highlight, HighlightKind, LocationView, OpenFile, TargetView,
    all_definitions, anchors_of, definitions_for, definitions_in, effective, effective_definitions,
    highlights_at, named_at, occurrences, references_from, references_in, renamed, sees, under,
};
use crate::finding::{first_from, last_below, lemma_first_from, lemma_last_below};
use crate::laws::complaints::{lemma_delimiters, pair};
use crate::line_struct::{Span, offset_of, range_between};
use crate::lookup::{
    ContextUse, bears, bracket_match, brackets_at, context_uses, counterpart, defined_at, in_effect,
    instance_uses, kind_after, kind_before, path_covers, symbol_covers, type_uses, use_covers,
    uses_among, uses_of, without_quotes,
};
use crate::protocol::{Position, Range};
use crate::syntax::{
    Node, children_of, lemma_among_children, lemma_children, lemma_few_children, nested,
};
use crate::walk::names;

verus! {

proof fn lemma_bears(symbols: Seq<Symbol>, name: Seq<char>, n: int)
    requires
        0 <= n <= symbols.len(),
    ensures
        forall|j: int|
            0 <= j < n && (#[trigger] symbols[j]).name@ == name ==> bears(
                symbols,
                name,
                n,
            ).contains(symbols[j].span),
        forall|k: int|
            0 <= k < bears(symbols, name, n).len() ==> spells(
                symbols,
                name,
                n,
                #[trigger] bears(symbols, name, n)[k],
            ),
        bears(symbols, name, n).len() <= n,
    decreases n,
{
    if n > 0 {
        lemma_bears(symbols, name, n - 1);
        let before = bears(symbols, name, n - 1);
        let all = bears(symbols, name, n);
        assert forall|j: int| 0 <= j < n && (#[trigger] symbols[j]).name@ == name implies
            all.contains(symbols[j].span) by {
            if j < n - 1 {
                assert(before.contains(symbols[j].span));
                let k = choose|k: int| 0 <= k < before.len() && before[k] == symbols[j].span;
                assert(all[k] == before[k]);
            } else {
                assert(all[all.len() - 1] == symbols[j].span);
            }
        }
        assert forall|k: int| 0 <= k < all.len() implies spells(
            symbols,
            name,
            n,
            #[trigger] all[k],
        ) by {
            if k < before.len() {
                assert(spells(symbols, name, n - 1, before[k]));
            } else {
                assert(symbols[n - 1].span == all[k]);
            }
        }
    }
}

/// Whether one of the first `n` symbols is called `name` and stands at `span`.
pub open spec fn spells(symbols: Seq<Symbol>, name: Seq<char>, n: int, span: Span) -> bool {
    exists|j: int|
        0 <= j < n && (#[trigger] symbols[j]).name@ == name && symbols[j].span == span
}

/// Whether one of the first `n` references of a document is to `name` and stands at `range`.
pub open spec fn refers_at(document: Document, name: Seq<char>, range: Range) -> bool {
    exists|j: int|
        0 <= j < document.references@.len() && (#[trigger] document.references@[j]).name@ == name
            && range == range_between(document.bytes(), document.references@[j].span)
}

/// The references to a symbol in a document are those of its references that have the name.
pub proof fn law_a_symbol_is_referred_to_by_its_name(
    document: Document,
    name: Seq<char>,
    at: Option<usize>,
    range: Range,
)
    ensures
        references_in(document, TargetView::Symbol(name, at)).contains(range) <==> refers_at(
            document,
            name,
            range,
        ),
{
    let symbols = document.references@;
    let n = symbols.len() as int;
    lemma_bears(symbols, name, n);
    let spans = bears(symbols, name, n);
    let ranges = references_in(document, TargetView::Symbol(name, at));
    if ranges.contains(range) {
        let k = choose|k: int| 0 <= k < ranges.len() && ranges[k] == range;
        assert(spells(symbols, name, n, spans[k]));
        let j = choose|j: int|
            0 <= j < n && (#[trigger] symbols[j]).name@ == name && symbols[j].span == spans[k];
        assert(range == range_between(document.bytes(), symbols[j].span));
    }
    if refers_at(document, name, range) {
        let j = choose|j: int|
            0 <= j < symbols.len() && (#[trigger] symbols[j]).name@ == name && range
                == range_between(document.bytes(), symbols[j].span);
        assert(spans.contains(symbols[j].span));
        let k = choose|k: int| 0 <= k < spans.len() && spans[k] == symbols[j].span;
        assert(ranges[k] == range);
    }
}

proof fn lemma_references_from(
    open: Seq<OpenFile>,
    anchors: Seq<Seq<char>>,
    target: TargetView,
    n: int,
    k: int,
    range: Range,
)
    requires
        0 <= k < n <= open.len(),
        sees(names(open[k].closure@), anchors),
        references_in(*open[k].document, target).contains(range),
    ensures
        references_from(open, anchors, target, n).contains(
            LocationView { uri: open[k].uri@, range },
        ),
    decreases n,
{
    let before = references_from(open, anchors, target, n - 1);
    let all = references_from(open, anchors, target, n);
    let place = LocationView { uri: open[k].uri@, range };
    if k < n - 1 {
        lemma_references_from(open, anchors, target, n - 1, k, range);
        let i = choose|i: int| 0 <= i < before.len() && before[i] == place;
        assert(all[i] == place);
    } else {
        lemma_own_references(open, anchors, target, n, range);
    }
}

proof fn lemma_own_references(
    open: Seq<OpenFile>,
    anchors: Seq<Seq<char>>,
    target: TargetView,
    n: int,
    range: Range,
)
    requires
        0 < n <= open.len(),
        sees(names(open[n - 1].closure@), anchors),
        references_in(*open[n - 1].document, target).contains(range),
    ensures
        references_from(open, anchors, target, n).contains(
            LocationView { uri: open[n - 1].uri@, range },
        ),
{
    let before = references_from(open, anchors, target, n - 1);
    let all = references_from(open, anchors, target, n);
    assert(exists|i: int|
        0 <= i < references_in(*open[n - 1].document, target).len() && #[trigger] references_in(
            *open[n - 1].document,
            target,
        )[i] == range);
    let i = choose|i: int|
        0 <= i < references_in(*open[n - 1].document, target).len() && #[trigger] references_in(
            *open[n - 1].document,
            target,
        )[i] == range;
    assert(all[before.len() + i] == LocationView { uri: open[n - 1].uri@, range });
}

/// Find-references leaves none out: every reference in an open document that can see a definition is
/// found, and the definitions are there exactly where they are asked for.
pub proof fn law_every_reference_is_found(
    name: Seq<char>,
    at: Option<usize>,
    files: Seq<File>,
    open: Seq<OpenFile>,
    uri: Seq<char>,
    k: int,
    range: Range,
)
    requires
        0 <= k < open.len(),
        sees(
            names(open[k].closure@),
            anchors_of(all_definitions(files, name, files.len() as int), uri),
        ),
        refers_at(*open[k].document, name, range),
    ensures
        ({
            let target = TargetView::Symbol(name, at);
            let place = LocationView { uri: open[k].uri@, range };
            let without = occurrences(target, files, open, uri, false);
            let with = occurrences(target, files, open, uri, true);
            &&& without.contains(place)
            &&& with.contains(place)
            &&& with == without + all_definitions(files, name, files.len() as int)
        }),
{
    let target = TargetView::Symbol(name, at);
    let place = LocationView { uri: open[k].uri@, range };
    let definitions = all_definitions(files, name, files.len() as int);
    let anchors = anchors_of(definitions, uri);
    lemma_target_refers(open, k, name, at, range);
    lemma_references_from(open, anchors, target, open.len() as int, k, range);
    let found = references_from(open, anchors, target, open.len() as int);
    let i = choose|i: int| 0 <= i < found.len() && found[i] == place;
    let without = occurrences(target, files, open, uri, false);
    let with = occurrences(target, files, open, uri, true);
    assert(without[i] == place);
    assert(with[i] == place);
    assert(without =~= found);
}

proof fn lemma_target_refers(
    open: Seq<OpenFile>,
    k: int,
    name: Seq<char>,
    at: Option<usize>,
    range: Range,
)
    requires
        refers_at(*open[k].document, name, range),
    ensures
        references_in(*open[k].document, TargetView::Symbol(name, at)).contains(range),
{
    assert forall|document: Document| #[trigger] refers_at(document, name, range) implies
        references_in(document, TargetView::Symbol(name, at)).contains(range) by {
        law_a_symbol_is_referred_to_by_its_name(document, name, at, range);
    }
}

/// Whether a file writes `name`, as one that it defines, at `range`.
pub open spec fn defines_at(document: Document, name: Seq<char>, range: Range) -> bool {
    exists|k: int|
        0 <= k < defined_at(document, name).len() && range == range_between(
            document.bytes(),
            #[trigger] defined_at(document, name)[k],
        )
}

proof fn lemma_all_definitions(
    files: Seq<File>,
    name: Seq<char>,
    n: int,
    k: int,
    document: Document,
    range: Range,
)
    requires
        0 <= k < n <= files.len(),
        document == *files[k].document,
        defines_at(document, name, range),
    ensures
        all_definitions(files, name, n).contains(LocationView { uri: files[k].uri@, range }),
    decreases n,
{
    let before = all_definitions(files, name, n - 1);
    let all = all_definitions(files, name, n);
    let place = LocationView { uri: files[k].uri@, range };
    if k < n - 1 {
        lemma_all_definitions(files, name, n - 1, k, document, range);
        let i = choose|i: int| 0 <= i < before.len() && before[i] == place;
        assert(all[i] == place);
    } else {
        let i = choose|i: int|
            0 <= i < defined_at(document, name).len() && range == range_between(
                document.bytes(),
                #[trigger] defined_at(document, name)[i],
            );
        assert(all[before.len() + i] == place);
    }
}

proof fn lemma_only_definitions(files: Seq<File>, name: Seq<char>, n: int, i: int)
    requires
        0 <= n <= files.len(),
        0 <= i < all_definitions(files, name, n).len(),
    ensures
        defined_in_one(files, name, n, all_definitions(files, name, n)[i]),
    decreases n,
{
    if n > 0 {
        let before = all_definitions(files, name, n - 1);
        let place = all_definitions(files, name, n)[i];
        if i < before.len() {
            lemma_only_definitions(files, name, n - 1, i);
            assert(before[i] == place);
        } else {
            let at = i - before.len();
            assert(place.range == range_between(
                files[n - 1].document.bytes(),
                defined_at(*files[n - 1].document, name)[at],
            ));
            assert(place.uri == files[n - 1].uri@);
        }
    }
}

/// Whether one of the first `n` files defines `name` at a place.
pub open spec fn defined_in_one(
    files: Seq<File>,
    name: Seq<char>,
    n: int,
    place: LocationView,
) -> bool {
    exists|k: int|
        0 <= k < n && (#[trigger] files[k]).uri@ == place.uri && defines_at(
            *files[k].document,
            name,
            place.range,
        )
}

/// Whether an edit writes `text` at a place.
pub open spec fn writes_at(
    edits: Seq<FileEditView>,
    place: LocationView,
    text: Seq<char>,
) -> bool {
    exists|k: int|
        0 <= k < edits.len() && (#[trigger] edits[k]).uri == place.uri && edits[k].edit.range
            == place.range && edits[k].edit.new_text == text
}

/// Renaming writes the new name at every definition in the files, and the new name behind a
/// backslash at every reference that can see one; and it changes nothing else. It is refused exactly
/// where the files define no such name.
pub proof fn law_renaming_changes_every_definition_and_reference(
    name: Seq<char>,
    new_name: Seq<char>,
    files: Seq<File>,
    open: Seq<OpenFile>,
    uri: Seq<char>,
    place: LocationView,
)
    ensures
        ({
            let edits = renamed(name, new_name, files, open, uri);
            let definitions = all_definitions(files, name, files.len() as int);
            &&& edits is None <==> definitions.len() == 0
            &&& edits is Some && defined_in_one(files, name, files.len() as int, place)
                ==> writes_at(edits->0, place, new_name)
            &&& edits is Some ==> (forall|k: int, range: Range|
                0 <= k < open.len() && sees(
                    names((#[trigger] open[k]).closure@),
                    anchors_of(definitions, uri),
                ) && #[trigger] refers_at(*open[k].document, name, range) ==> writes_at(
                    edits->0,
                    LocationView { uri: open[k].uri@, range },
                    seq!['\\'] + new_name,
                ))
            &&& edits is Some ==> (forall|i: int|
                0 <= i < edits->0.len() ==> (#[trigger] edits->0[i]).edit.new_text == new_name
                    || edits->0[i].edit.new_text == seq!['\\'] + new_name)
        }),
{
    let definitions = all_definitions(files, name, files.len() as int);
    let anchors = anchors_of(definitions, uri);
    let target = TargetView::Symbol(name, None);
    let found = references_from(open, anchors, target, open.len() as int);
    reveal_strlit("\\");
    assert("\\"@ =~= seq!['\\']);
    if definitions.len() > 0 {
        let edits = renamed(name, new_name, files, open, uri)->0;
        if defined_in_one(files, name, files.len() as int, place) {
            let k = choose|k: int|
                0 <= k < files.len() && (#[trigger] files[k]).uri@ == place.uri && defines_at(
                    *files[k].document,
                    name,
                    place.range,
                );
            lemma_file_defines(files, name, k, place.range);
            let i = choose|i: int| 0 <= i < definitions.len() && definitions[i] == place;
            assert(edits[i].uri == place.uri);
        }
        assert forall|k: int, range: Range|
            0 <= k < open.len() && sees(names((#[trigger] open[k]).closure@), anchors)
                && #[trigger] refers_at(*open[k].document, name, range) implies writes_at(
            edits,
            LocationView { uri: open[k].uri@, range },
            seq!['\\'] + new_name,
        ) by {
            let there = LocationView { uri: open[k].uri@, range };
            lemma_target_refers(open, k, name, None, range);
            lemma_references_from(open, anchors, target, open.len() as int, k, range);
            let i = choose|i: int| 0 <= i < found.len() && found[i] == there;
            assert(edits[definitions.len() + i].uri == there.uri);
        }
    }
}

proof fn lemma_file_defines(files: Seq<File>, name: Seq<char>, k: int, range: Range)
    requires
        0 <= k < files.len(),
        defines_at(*files[k].document, name, range),
    ensures
        all_definitions(files, name, files.len() as int).contains(
            LocationView { uri: files[k].uri@, range },
        ),
{
    assert forall|document: Document|
        document == *files[k].document && #[trigger] defines_at(document, name, range) implies
        all_definitions(files, name, files.len() as int).contains(
            LocationView { uri: files[k].uri@, range },
        ) by {
        lemma_all_definitions(files, name, files.len() as int, k, document, range);
    }
}

/// Whether `span` is the definition that a reference at `at` means, among definitions in source
/// order: the last one that starts no later, and the first where all start later. A reference in
/// another file means the last.
pub open spec fn is_meant(spans: Seq<Span>, at: Option<usize>, span: Span) -> bool {
    exists|k: int|
        {
            &&& 0 <= k < spans.len()
            &&& #[trigger] spans[k] == span
            &&& match at {
                Some(at) => (k == 0 || span.start <= at) && (k + 1 < spans.len() ==> spans[k
                    + 1].start > at),
                None => k + 1 == spans.len(),
            }
        }
}

proof fn lemma_meant(spans: Seq<Span>, at: Option<usize>)
    requires
        spans.len() > 0,
        forall|i: int, j: int| 0 <= i <= j < spans.len() ==> spans[i].start <= spans[j].start,
    ensures
        in_effect(spans, at) is Some,
        is_meant(spans, at, in_effect(spans, at)->0),
{
    match at {
        Some(at) => {
            crate::lookup::law_the_last_definition_before_is_in_effect(spans, at);
            let k = choose|k: int|
                0 <= k < spans.len() && in_effect(spans, Some(at)) == Some(#[trigger] spans[k]) && (
                spans[k].start <= at || k == 0) && forall|j: int|
                    k < j < spans.len() ==> (#[trigger] spans[j]).start > at;
            if k + 1 < spans.len() {
                assert(spans[k + 1].start > at);
            }
        },
        None => {
            assert(spans[spans.len() - 1] == spans.last());
        },
    }
}

proof fn lemma_effective(
    files: Seq<File>,
    name: Seq<char>,
    uri: Seq<char>,
    at: Option<usize>,
    n: int,
    k: int,
)
    requires
        0 <= k < n <= files.len(),
    ensures
        ({
            let own = if files[k].uri@ == uri {
                at
            } else {
                None
            };
            let range = effective(*files[k].document, name, own);
            range is Some ==> effective_definitions(files, name, uri, at, n).contains(
                LocationView { uri: files[k].uri@, range: range->0 },
            )
        }),
    decreases n,
{
    let own = if files[k].uri@ == uri {
        at
    } else {
        None
    };
    let before = effective_definitions(files, name, uri, at, n - 1);
    let all = effective_definitions(files, name, uri, at, n);
    if k < n - 1 {
        lemma_effective(files, name, uri, at, n - 1, k);
        assert forall|place: LocationView| #[trigger] before.contains(place) implies all.contains(
            place,
        ) by {
            let i = choose|i: int| 0 <= i < before.len() && before[i] == place;
            assert(all[i] == place);
        }
    } else {
        assert(effective(*files[k].document, name, own) is Some ==> all[before.len() as int].uri
            == files[k].uri@);
    }
}

/// Going to the definition of a symbol leads, in each file that defines it, to the definition that
/// is meant: in the cursor's own file by where the cursor is, in others the last. There are no more
/// places than files.
pub proof fn law_a_symbol_leads_to_the_definition_it_means(
    name: Seq<char>,
    at: Option<usize>,
    files: Seq<File>,
    uri: Seq<char>,
    k: int,
    document: Document,
    own: Option<usize>,
)
    requires
        0 <= k < files.len(),
        document == *files[k].document,
        files[k].uri@ == uri ==> own == at,
        files[k].uri@ != uri ==> own is None,
        defined_at(document, name).len() > 0,
        forall|i: int, j: int|
            0 <= i <= j < defined_at(document, name).len() ==> (#[trigger] defined_at(
                document,
                name,
            )[i]).start <= (#[trigger] defined_at(document, name)[j]).start,
    ensures
        definitions_for(TargetView::Symbol(name, at), files, uri).len() <= files.len(),
        exists|span: Span|
            {
                &&& #[trigger] is_meant(defined_at(document, name), own, span)
                &&& definitions_for(TargetView::Symbol(name, at), files, uri).contains(
                    LocationView {
                        uri: files[k].uri@,
                        range: range_between(document.bytes(), span),
                    },
                )
            },
{
    let spans = defined_at(document, name);
    lemma_meant(spans, own);
    lemma_effective(files, name, uri, at, files.len() as int, k);
    lemma_few_effective(files, name, uri, at, files.len() as int);
}

proof fn lemma_few_effective(
    files: Seq<File>,
    name: Seq<char>,
    uri: Seq<char>,
    at: Option<usize>,
    n: int,
)
    requires
        0 <= n <= files.len(),
    ensures
        effective_definitions(files, name, uri, at, n).len() <= n,
    decreases n,
{
    if n > 0 {
        lemma_few_effective(files, name, uri, at, n - 1);
    }
}

/// Whether node `s` is the only one of its kind among the children of its parent.
pub open spec fn alone_of_its_kind(nodes: Seq<Node>, s: int) -> bool {
    let row = children_of(nodes, nodes[s].parent as int);
    forall|k: int|
        0 <= k < row.len() && nodes[(#[trigger] row[k]) as int].kind@ == nodes[s].kind@ ==> row[k]
            == s
}

/// The bracket that opens a block and the one that closes it go with each other.
pub proof fn law_brackets_go_with_each_other(nodes: Seq<Node>, i: int, j: int)
    requires
        nested(nodes),
        nodes.len() <= usize::MAX,
        0 < i < nodes.len(),
        0 < j < nodes.len(),
        nodes[i].parent == nodes[j].parent,
        nodes[i].start < nodes[j].start,
        pair(nodes[i].kind@, nodes[j].kind@),
        nodes[i].kind@ != seq!['"'],
        alone_of_its_kind(nodes, i),
        alone_of_its_kind(nodes, j),
    ensures
        bracket_match(nodes, i) == Some(j as usize),
        bracket_match(nodes, j) == Some(i as usize),
{
    lemma_delimiters();
    let parent = nodes[i].parent as int;
    let row = children_of(nodes, parent);
    let n = row.len() as int;
    lemma_few_children(nodes, parent);
    lemma_among_children(nodes, i);
    lemma_among_children(nodes, j);
    let a = choose|k: int| 0 <= k < row.len() && #[trigger] row[k] == i;
    let b = choose|k: int| 0 <= k < row.len() && #[trigger] row[k] == j;
    let behind = kind_after(nodes, row, nodes[j].kind@, nodes[i].start);
    let before = kind_before(nodes, row, nodes[i].kind@, nodes[j].start);
    assert(behind(b));
    assert(before(a));
    lemma_first_from(0, n, behind);
    lemma_last_below(n, before);
    match first_from(0, n, behind) {
        Some(k) => {
            assert(behind(k as int));
            assert(row[k as int] == j);
        },
        None => {
            assert(!behind(b));
        },
    }
    match last_below(n, before) {
        Some(k) => {
            assert(before(k as int));
            assert(row[k as int] == i);
        },
        None => {
            assert(!before(a));
        },
    }
}

/// A bracket goes only with one of the other kind beside it: an opening one with the next that
/// closes, a closing one with the last that opens.
pub proof fn law_a_bracket_goes_with_the_nearest(nodes: Seq<Node>, i: int, j: usize, k: int)
    requires
        nested(nodes),
        nodes.len() <= usize::MAX,
        0 < i < nodes.len(),
        bracket_match(nodes, i) == Some(j),
        0 <= k < children_of(nodes, nodes[i].parent as int).len(),
    ensures
        ({
            let between = nodes[children_of(nodes, nodes[i].parent as int)[k] as int];
            let one = nodes[i];
            let other = nodes[j as int];
            ||| {
                &&& pair(one.kind@, other.kind@)
                &&& one.start < other.start
                &&& between.kind@ == other.kind@ && between.start > one.start ==> j
                    <= children_of(nodes, nodes[i].parent as int)[k]
            }
            ||| {
                &&& pair(other.kind@, one.kind@)
                &&& other.start < one.start
                &&& between.kind@ == other.kind@ && between.start < one.start
                    ==> children_of(nodes, nodes[i].parent as int)[k] <= j
            }
        }),
        exists|l: int|
            0 <= l < children_of(nodes, nodes[i].parent as int).len() && #[trigger] children_of(
                nodes,
                nodes[i].parent as int,
            )[l] == j,
{
    lemma_delimiters();
    let parent = nodes[i].parent as int;
    let row = children_of(nodes, parent);
    let n = row.len() as int;
    lemma_few_children(nodes, parent);
    lemma_children(nodes, parent);
    let (kind, opens) = counterpart(nodes[i].kind@)->0;
    if opens {
        let fits = kind_after(nodes, row, kind, nodes[i].start);
        lemma_first_from(0, n, fits);
        let l = first_from(0, n, fits)->0 as int;
        assert(fits(l));
        assert(row[l] == j);
        if k < l {
            assert(!fits(k));
        } else if k > l {
            assert(row[l] < row[k]);
        }
    } else {
        let fits = kind_before(nodes, row, kind, nodes[i].start);
        lemma_last_below(n, fits);
        let l = last_below(n, fits)->0 as int;
        assert(fits(l));
        assert(row[l] == j);
        if k > l {
            assert(!fits(k));
        } else if k < l {
            assert(row[k] < row[l]);
        }
    }
}

/// Whether something is highlighted in one way.
pub open spec fn marked(found: Seq<Highlight>, range: Range, kind: HighlightKind) -> bool {
    exists|k: int| 0 <= k < found.len() && #[trigger] found[k] == (Highlight { range, kind })
}

/// On a bracket, it and the one it goes with are highlighted, and nothing else. Elsewhere every
/// definition of the name there is highlighted as written and every reference as read, and nothing
/// else.
pub proof fn law_highlights_show_where_a_name_is_written_and_read(
    document: Document,
    position: Position,
    range: Range,
)
    ensures
        ({
            let found = highlights_at(document, position);
            let target = named_at(document, position);
            match brackets_at(document, position) {
                Some((one, other)) => {
                    &&& found.len() == 2
                    &&& marked(found, one, HighlightKind::Text)
                    &&& marked(found, other, HighlightKind::Text)
                },
                None => {
                    &&& marked(found, range, HighlightKind::Write) <==> definitions_in(
                        document,
                        target,
                    ).contains(range)
                    &&& marked(found, range, HighlightKind::Read) <==> references_in(
                        document,
                        target,
                    ).contains(range)
                    &&& !marked(found, range, HighlightKind::Text)
                },
            }
        }),
{
    let found = highlights_at(document, position);
    let target = named_at(document, position);
    match brackets_at(document, position) {
        Some((one, other)) => {
            assert(found[0] == Highlight { range: one, kind: HighlightKind::Text });
            assert(found[1] == Highlight { range: other, kind: HighlightKind::Text });
        },
        None => {
            let written = definitions_in(document, target);
            let read = references_in(document, target);
            let n = written.len() as int;
            assert(found.len() == n + read.len());
            assert forall|k: int| 0 <= k < n implies #[trigger] found[k] == (Highlight {
                range: written[k],
                kind: HighlightKind::Write,
            }) by {}
            assert forall|k: int| n <= k < found.len() implies #[trigger] found[k] == (Highlight {
                range: read[k - n],
                kind: HighlightKind::Read,
            }) by {}
            if written.contains(range) {
                let k = choose|k: int| 0 <= k < written.len() && written[k] == range;
                assert(found[k].range == range);
            }
            if read.contains(range) {
                let k = choose|k: int| 0 <= k < read.len() && read[k] == range;
                assert(found[n + k].range == range);
            }
        },
    }
}

/// Whether `span` is that of the first of some places that hold an offset.
pub open spec fn first_holding(spans: Seq<Span>, offset: int, k: int) -> bool {
    &&& 0 <= k < spans.len()
    &&& spans[k].start <= offset < spans[k].end
    &&& forall|j: int|
        0 <= j < k ==> !((#[trigger] spans[j]).start <= offset < spans[j].end)
}

/// Whether none of some places holds an offset.
pub open spec fn none_holding(spans: Seq<Span>, offset: int) -> bool {
    forall|j: int|
        0 <= j < spans.len() ==> !((#[trigger] spans[j]).start <= offset < spans[j].end)
}

/// Where the paths of included files stand.
pub open spec fn path_spans(document: Document) -> Seq<Span> {
    document.includes@.map_values(|file: crate::document::Include| file.span)
}

/// Where symbols stand.
pub open spec fn symbol_spans(symbols: Seq<Symbol>) -> Seq<Span> {
    symbols.map_values(|symbol: Symbol| symbol.span)
}

/// Where contexts are named.
pub open spec fn use_spans(uses: Seq<ContextUse>) -> Seq<Span> {
    uses.map_values(|one: ContextUse| arg_view(one.arg).place())
}

proof fn lemma_first_holding(n: int, fits: spec_fn(int) -> bool, spans: Seq<Span>, offset: int, k: int)
    requires
        n == spans.len() <= usize::MAX,
        forall|j: int|
            0 <= j < n ==> (#[trigger] fits(j) <==> spans[j].start <= offset < spans[j].end),
    ensures
        first_holding(spans, offset, k) ==> first_from(0, n, fits) == Some(k as usize),
        none_holding(spans, offset) ==> first_from(0, n, fits) is None,
{
    lemma_first_from(0, n, fits);
    if first_holding(spans, offset, k) {
        assert(fits(k));
        match first_from(0, n, fits) {
            Some(j) => {
                assert(fits(j as int));
                if j < k {
                    assert(!(spans[j as int].start <= offset < spans[j as int].end));
                }
                if j > k {
                    assert(!fits(k));
                }
            },
            None => {
                assert(!fits(k));
            },
        }
    }
    if none_holding(spans, offset) {
        match first_from(0, n, fits) {
            Some(j) => {
                assert(fits(j as int));
                assert(!(spans[j as int].start <= offset < spans[j as int].end));
            },
            None => {},
        }
    }
}

/// What stands under the cursor: the path of an included file before a context, a context before a
/// symbol, and a definition before a reference.
pub proof fn law_what_stands_under_the_cursor(
    document: Document,
    position: Position,
    offset: int,
    k: int,
)
    requires
        offset_of(document.bytes(), position) == Some(offset),
        uses_of(document).len() <= usize::MAX,
    ensures
        ({
            let target = under(document, position);
            let uses = uses_of(document);
            let definitions = symbol_spans(document.definitions@);
            let references = symbol_spans(document.references@);
            let no_path = none_holding(path_spans(document), offset);
            let no_context = none_holding(use_spans(uses), offset);
            let no_definition = none_holding(definitions, offset);
            &&& first_holding(path_spans(document), offset, k) ==> target == TargetView::Path(
                document.includes@[k].path@,
            )
            &&& no_path && first_holding(use_spans(uses), offset, k) ==> match uses[k].arg {
                Arg::ContextType { name, .. } => target == TargetView::ContextType(name@),
                Arg::ContextName { name, .. } => target == TargetView::ContextName(name@),
                _ => true,
            }
            &&& no_path && no_context && first_holding(definitions, offset, k) ==> target
                == TargetView::Symbol(document.definitions@[k].name@, Some(offset as usize))
            &&& no_path && no_context && no_definition && first_holding(references, offset, k)
                ==> target == TargetView::Symbol(
                document.references@[k].name@,
                Some(offset as usize),
            )
            &&& no_path && no_context && no_definition && none_holding(references, offset)
                ==> target is Nothing
        }),
{
    let uses = uses_of(document);
    assert(document.includes@.len() == document.includes.len());
    assert(document.definitions@.len() == document.definitions.len());
    assert(document.references@.len() == document.references.len());
    lemma_first_holding(
        document.includes@.len() as int,
        path_covers(document.includes@, offset),
        path_spans(document),
        offset,
        k,
    );
    lemma_first_holding(
        uses.len() as int,
        use_covers(uses, offset),
        use_spans(uses),
        offset,
        k,
    );
    lemma_first_holding(
        document.definitions@.len() as int,
        symbol_covers(document.definitions@, offset),
        symbol_spans(document.definitions@),
        offset,
        k,
    );
    lemma_first_holding(
        document.references@.len() as int,
        symbol_covers(document.references@, offset),
        symbol_spans(document.references@),
        offset,
        k,
    );
}

/// Whether a call has an argument, by itself or as a part of a group.
pub open spec fn has_argument(args: Seq<Arg>, arg: Arg) -> bool {
    exists|k: int| 0 <= k < args.len() && (#[trigger] args[k] == arg || has_part(args[k], arg))
}

/// Whether an argument is a group with another in it.
pub open spec fn has_part(group: Arg, arg: Arg) -> bool {
    match group {
        Arg::Group { args, .. } => args@.contains(arg),
        _ => false,
    }
}

proof fn lemma_flattened(args: Seq<Arg>, arg: Arg)
    requires
        has_argument(args, arg),
    ensures
        flattened_args(args).contains(arg),
    decreases args.len(),
{
    let k = choose|k: int|
        0 <= k < args.len() && (#[trigger] args[k] == arg || has_part(args[k], arg));
    let rest = args.drop_last();
    let before = flattened_args(rest);
    let all = flattened_args(args);
    if k < args.len() - 1 {
        assert(rest[k] == args[k]);
        lemma_flattened(rest, arg);
        let i = choose|i: int| 0 <= i < before.len() && before[i] == arg;
        assert(all[i] == arg);
    } else if args[k] == arg {
        assert(all[before.len() as int] == arg);
    } else {
        match args[k] {
            Arg::Group { args: inner, .. } => {
                let i = choose|i: int| 0 <= i < inner@.len() && inner@[i] == arg;
                assert(all[before.len() + 1 + i] == arg);
            },
            _ => {},
        }
    }
}

proof fn lemma_uses_among(args: Seq<Arg>, creates: bool, n: int, m: int)
    requires
        0 <= m < n <= args.len(),
        args[m] is ContextType || args[m] is ContextName,
    ensures
        uses_among(args, creates, n).contains(ContextUse { arg: args[m], creates }),
    decreases n,
{
    let before = uses_among(args, creates, n - 1);
    let all = uses_among(args, creates, n);
    let one = ContextUse { arg: args[m], creates };
    if m < n - 1 {
        lemma_uses_among(args, creates, n - 1, m);
        let i = choose|i: int| 0 <= i < before.len() && before[i] == one;
        assert(all[i] == one);
    } else {
        assert(all[before.len() as int] == one);
    }
}

/// Whether a call is one of those that create the context they name.
pub open spec fn makes_context(call: CommandCall) -> bool {
    call.cmd.behaviour is NewContext
}

proof fn lemma_used(calls: Seq<CommandCall>, n: int, c: int, arg: Arg)
    requires
        0 <= c < n <= calls.len(),
        has_argument(calls[c].args@, arg),
        arg is ContextType || arg is ContextName,
    ensures
        context_uses(calls, n).contains(
            ContextUse { arg, creates: makes_context(calls[c]) },
        ),
    decreases n,
{
    let before = context_uses(calls, n - 1);
    let all = context_uses(calls, n);
    let one = ContextUse { arg, creates: makes_context(calls[c]) };
    if c < n - 1 {
        lemma_used(calls, n - 1, c, arg);
        let i = choose|i: int| 0 <= i < before.len() && before[i] == one;
        assert(all[i] == one);
    } else {
        let args = flattened_args(calls[c].args@);
        lemma_flattened(calls[c].args@, arg);
        let m = choose|m: int| 0 <= m < args.len() && args[m] == arg;
        lemma_uses_among(args, one.creates, args.len() as int, m);
        let own = uses_among(args, one.creates, args.len() as int);
        let i = choose|i: int| 0 <= i < own.len() && own[i] == one;
        assert(all[before.len() + i] == one);
    }
}

proof fn lemma_type_uses(uses: Seq<ContextUse>, name: Seq<char>, n: int, k: int)
    requires
        0 <= k < n <= uses.len(),
        uses[k].arg is ContextType,
        uses[k].arg->ContextType_name@ == name,
    ensures
        type_uses(uses, name, n).contains(uses[k].arg->ContextType_span),
    decreases n,
{
    let before = type_uses(uses, name, n - 1);
    let all = type_uses(uses, name, n);
    let span = uses[k].arg->ContextType_span;
    if k < n - 1 {
        lemma_type_uses(uses, name, n - 1, k);
        let i = choose|i: int| 0 <= i < before.len() && before[i] == span;
        assert(all[i] == span);
    } else {
        assert(all[before.len() as int] == span);
    }
}

proof fn lemma_instance_uses(
    bytes: Seq<u8>,
    uses: Seq<ContextUse>,
    name: Seq<char>,
    n: int,
    k: int,
)
    requires
        0 <= k < n <= uses.len(),
        uses[k].arg is ContextName,
        uses[k].arg->ContextName_name@ == name,
        !uses[k].creates,
    ensures
        instance_uses(bytes, uses, name, n).contains(
            without_quotes(bytes, uses[k].arg->ContextName_span),
        ),
    decreases n,
{
    let before = instance_uses(bytes, uses, name, n - 1);
    let all = instance_uses(bytes, uses, name, n);
    let span = without_quotes(bytes, uses[k].arg->ContextName_span);
    if k < n - 1 {
        lemma_instance_uses(bytes, uses, name, n - 1, k);
        let i = choose|i: int| 0 <= i < before.len() && before[i] == span;
        assert(all[i] == span);
    } else {
        assert(all[before.len() as int] == span);
    }
}

/// Whether a name stands in quotes.
pub open spec fn in_quotes(bytes: Seq<u8>, span: Span) -> bool {
    span.start + 2 <= span.end <= bytes.len() && bytes[span.start as int] == '"' as u32
        && bytes[span.end - 1] == '"' as u32
}

/// Whether `range` is that of a name, its quotes left out where it has them.
pub open spec fn at_name(bytes: Seq<u8>, span: Span, range: Range) -> bool {
    if in_quotes(bytes, span) {
        range == range_between(
            bytes,
            Span { start: (span.start + 1) as usize, end: (span.end - 1) as usize },
        )
    } else {
        range == range_between(bytes, span)
    }
}

/// Every call that names a context type refers to it, and every call that names an instance without
/// creating one refers to that; a name in quotes is where its quotes do not reach.
pub proof fn law_a_context_is_referred_to_by_every_call_that_names_it(
    document: Document,
    c: int,
    arg: Arg,
    range: Range,
)
    requires
        0 <= c < document.calls().len(),
        has_argument(document.calls()[c].args@, arg),
    ensures
        arg is ContextType && range == range_between(document.bytes(), arg->ContextType_span)
            ==> references_in(
            document,
            TargetView::ContextType(arg->ContextType_name@),
        ).contains(range),
        arg is ContextName && !(makes_context(document.calls()[c])) && at_name(
            document.bytes(),
            arg->ContextName_span,
            range,
        ) ==> references_in(
            document,
            TargetView::ContextName(arg->ContextName_name@),
        ).contains(range),
{
    let calls = document.calls();
    let uses = uses_of(document);
    let n = uses.len() as int;
    let bytes = document.bytes();
    if arg is ContextType && range == range_between(bytes, arg->ContextType_span) {
        lemma_used(calls, calls.len() as int, c, arg);
        let k = choose|k: int|
            0 <= k < uses.len() && uses[k] == (ContextUse {
                arg,
                creates: makes_context(calls[c]),
            });
        let name = arg->ContextType_name@;
        lemma_type_uses(uses, name, n, k);
        let spans = type_uses(uses, name, n);
        let i = choose|i: int| 0 <= i < spans.len() && spans[i] == arg->ContextType_span;
        assert(references_in(document, TargetView::ContextType(name))[i] == range);
    }
    if arg is ContextName && !(makes_context(calls[c])) && at_name(
        bytes,
        arg->ContextName_span,
        range,
    ) {
        lemma_used(calls, calls.len() as int, c, arg);
        let k = choose|k: int|
            0 <= k < uses.len() && uses[k] == (ContextUse {
                arg,
                creates: makes_context(calls[c]),
            });
        let name = arg->ContextName_name@;
        lemma_instance_uses(bytes, uses, name, n, k);
        let spans = instance_uses(bytes, uses, name, n);
        let span = without_quotes(bytes, arg->ContextName_span);
        let i = choose|i: int| 0 <= i < spans.len() && spans[i] == span;
        assert(references_in(document, TargetView::ContextName(name))[i] == range);
    }
}

proof fn lemma_only_other_calls(bytes: Seq<u8>, uses: Seq<ContextUse>, name: Seq<char>, n: int)
    requires
        0 <= n <= uses.len(),
        forall|k: int|
            0 <= k < n && (#[trigger] uses[k]).arg is ContextName ==> uses[k].creates
                || uses[k].arg->ContextName_name@ != name,
    ensures
        instance_uses(bytes, uses, name, n).len() == 0,
    decreases n,
{
    if n > 0 {
        lemma_only_other_calls(bytes, uses, name, n - 1);
        assert(uses[n - 1].arg is ContextName ==> uses[n - 1].creates || uses[
            n - 1
        ].arg->ContextName_name@ != name);
    }
}

/// A name that only calls which create a context give is referred to by none.
pub proof fn law_creating_a_context_is_no_reference_to_it(document: Document, name: Seq<char>)
    requires
        forall|k: int|
            0 <= k < uses_of(document).len() && (#[trigger] uses_of(document)[k]).arg is ContextName
                ==> uses_of(document)[k].creates || uses_of(document)[k].arg->ContextName_name@
                != name,
    ensures
        references_in(document, TargetView::ContextName(name)).len() == 0,
{
    let uses = uses_of(document);
    lemma_only_other_calls(document.bytes(), uses, name, uses.len() as int);
}

/// References are looked for in the documents that can see a file which defines the name, and where no
/// file does in those that can see the cursor's own.
pub proof fn law_where_references_are_looked_for(
    definitions: Seq<LocationView>,
    uri: Seq<char>,
    closure: Seq<Seq<char>>,
)
    ensures
        definitions.len() == 0 ==> (sees(closure, anchors_of(definitions, uri))
            <==> closure.contains(uri)),
        definitions.len() > 0 ==> (sees(closure, anchors_of(definitions, uri)) <==> exists|
            i: int,
        |
            0 <= i < definitions.len() && closure.contains((#[trigger] definitions[i]).uri)),
{
    let anchors = anchors_of(definitions, uri);
    if definitions.len() == 0 {
        assert(anchors =~= seq![uri]);
        assert(anchors[0] == uri);
        if closure.contains(uri) {
            let k = choose|k: int| 0 <= k < closure.len() && closure[k] == uri;
            assert(anchors.contains(closure[k]));
        }
    } else {
        if sees(closure, anchors) {
            let k = choose|k: int|
                0 <= k < closure.len() && anchors.contains(#[trigger] closure[k]);
            let i = choose|i: int| 0 <= i < anchors.len() && anchors[i] == closure[k];
            assert(closure.contains(definitions[i].uri));
        }
        if exists|i: int|
            0 <= i < definitions.len() && closure.contains((#[trigger] definitions[i]).uri) {
            let i = choose|i: int|
                0 <= i < definitions.len() && closure.contains((#[trigger] definitions[i]).uri);
            let k = choose|k: int| 0 <= k < closure.len() && closure[k] == definitions[i].uri;
            assert(anchors[i] == closure[k]);
            assert(anchors.contains(closure[k]));
        }
    }
}

} // verus!
