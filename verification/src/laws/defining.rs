//! Definitions: what a file's Scheme functions take, and what its context types and contexts are.
use vstd::prelude::*;
use crate::command::{KindView, Value};
use crate::command::reader::digits_value;
use crate::command::scheme::{
    PredicateView, assigned_to, binding_form, child_of, decimal, definition_in, digit, elements_of,
    embedded_binding, function_form, function_of, names_among, of_kind, parameters_of,
    predicates_among, scheme_bindings, shape_for, source_of,
};
use crate::command::texinfo::markdown_of;
use crate::command::variable::{
    gap_between, lemma_smaller_children, line_count, line_ends, sketched, sketched_row, summary,
    value_text, wrapped_music,
};
use crate::context::{
    block_aliases, block_description, block_name, created_as, created_instances, declared_at,
    declared_types, equals_sign, instance_at, name_at, named_of, named_sibling_before, string_parts,
    string_text, unescaped,
};
use crate::finding::{first_from, lemma_first_from};
use crate::line_struct::Span;
use crate::syntax::{Node, SyntaxTree, children_of, lemma_children, nested, sibling_before, span_of};
use crate::text::cut_of;

verus! {

/// Whether a node writes a predicate: a word, or a list that starts with a word and says what is taken
/// where nothing is written.
pub open spec fn writes_predicate(nodes: Seq<Node>, i: int) -> bool {
    ||| nodes[i].kind@ == "scheme_symbol"@
    ||| nodes[i].kind@ == "scheme_list"@ && elements_of(nodes, i).len() > 0 && nodes[elements_of(
        nodes,
        i,
    )[0] as int].kind@ == "scheme_symbol"@
}

/// The word of a predicate.
pub open spec fn predicate_word(nodes: Seq<Node>, src: Seq<char>, i: int) -> Seq<char> {
    let word = if nodes[i].kind@ == "scheme_symbol"@ {
        nodes[i]
    } else {
        nodes[elements_of(nodes, i)[0] as int]
    };
    cut_of(src, word.start as int, word.end as int)
}

/// Whether an argument that passes a predicate is of a kind: music, pitches, strings and whole numbers
/// are read by their shape, and anything else is known by the predicate alone.
pub open spec fn passes(predicate: Seq<char>, kind: KindView) -> bool {
    let number = predicate == "integer?"@ || predicate == "index?"@ || predicate
        == "positive-integer?"@ || predicate == "non-negative-integer?"@;
    &&& predicate == "ly:music?"@ ==> kind is Music
    &&& predicate == "ly:pitch?"@ ==> kind is Pitch
    &&& predicate == "string?"@ ==> kind is String
    &&& number ==> kind is Count
    &&& predicate != "ly:music?"@ && predicate != "ly:pitch?"@ && predicate != "string?"@ && !number
        ==> kind == KindView::Unknown(predicate)
}

proof fn lemma_passes(predicate: Seq<char>)
    ensures
        passes(predicate, shape_for(predicate)),
{
    reveal_strlit("ly:music?");
    reveal_strlit("ly:pitch?");
    reveal_strlit("string?");
    reveal_strlit("integer?");
    reveal_strlit("index?");
    reveal_strlit("positive-integer?");
    reveal_strlit("non-negative-integer?");
    assert("ly:music?"@.len() == 9 && "ly:music?"@[3] == 'm');
    assert("ly:pitch?"@.len() == 9 && "ly:pitch?"@[3] == 'p');
    assert("string?"@.len() == 7);
    assert("integer?"@.len() == 8);
    assert("index?"@.len() == 6);
    assert("positive-integer?"@.len() == 17);
    assert("non-negative-integer?"@.len() == 21);
}

proof fn lemma_predicates(nodes: Seq<Node>, src: Seq<char>, elements: Seq<usize>, n: int)
    requires
        0 <= n <= elements.len(),
        forall|k: int|
            0 <= k < elements.len() ==> writes_predicate(nodes, (#[trigger] elements[k]) as int),
    ensures
        predicates_among(nodes, src, elements, n).len() == n,
        forall|k: int|
            0 <= k < n ==> {
                let found = #[trigger] predicates_among(nodes, src, elements, n)[k];
                &&& found.name == predicate_word(nodes, src, elements[k] as int)
                &&& found.optional <==> nodes[elements[k] as int].kind@ != "scheme_symbol"@
            },
    decreases n,
{
    if n > 0 {
        lemma_predicates(nodes, src, elements, n - 1);
        assert(writes_predicate(nodes, elements[n - 1] as int));
        let before = predicates_among(nodes, src, elements, n - 1);
        let all = predicates_among(nodes, src, elements, n);
        assert forall|k: int| 0 <= k < n implies {
            let found = #[trigger] all[k];
            &&& found.name == predicate_word(nodes, src, elements[k] as int)
            &&& found.optional <==> nodes[elements[k] as int].kind@ != "scheme_symbol"@
        } by {
            if k < n - 1 {
                assert(all[k] == before[k]);
            }
        }
    }
}

proof fn lemma_names(nodes: Seq<Node>, src: Seq<char>, elements: Seq<usize>, n: int)
    requires
        0 <= n <= elements.len(),
        forall|k: int|
            0 <= k < elements.len() ==> nodes[(#[trigger] elements[k]) as int].kind@
                == "scheme_symbol"@,
    ensures
        names_among(nodes, src, elements, n).len() == n,
        forall|k: int|
            0 <= k < n ==> #[trigger] names_among(nodes, src, elements, n)[k] == cut_of(
                src,
                nodes[elements[k] as int].start as int,
                nodes[elements[k] as int].end as int,
            ),
    decreases n,
{
    if n > 0 {
        lemma_names(nodes, src, elements, n - 1);
        assert(nodes[elements[n - 1] as int].kind@ == "scheme_symbol"@);
        let before = names_among(nodes, src, elements, n - 1);
        let all = names_among(nodes, src, elements, n);
        assert forall|k: int| 0 <= k < n implies #[trigger] all[k] == cut_of(
            src,
            nodes[elements[k] as int].start as int,
            nodes[elements[k] as int].end as int,
        ) by {
            if k < n - 1 {
                assert(all[k] == before[k]);
            }
        }
    }
}

/// Whether the elements at `a` and `b` are the first two lists behind the head of a definition.
pub open spec fn first_two_lists(nodes: Seq<Node>, elements: Seq<usize>, a: int, b: int) -> bool {
    &&& 1 <= a < b < elements.len()
    &&& nodes[elements[a] as int].kind@ == "scheme_list"@
    &&& nodes[elements[b] as int].kind@ == "scheme_list"@
    &&& forall|k: int|
        1 <= k < b && k != a ==> nodes[(#[trigger] elements[k]) as int].kind@ != "scheme_list"@
}

proof fn lemma_two_lists(nodes: Seq<Node>, elements: Seq<usize>, a: int, b: int)
    requires
        first_two_lists(nodes, elements, a, b),
        elements.len() <= usize::MAX,
    ensures
        first_from(1, elements.len() as int, of_kind(nodes, elements, "scheme_list"@)) == Some(
            a as usize,
        ),
        first_from(a + 1, elements.len() as int, of_kind(nodes, elements, "scheme_list"@)) == Some(
            b as usize,
        ),
{
    let n = elements.len() as int;
    let lists = of_kind(nodes, elements, "scheme_list"@);
    lemma_first_from(1, n, lists);
    lemma_first_from(a + 1, n, lists);
    assert(lists(a) && lists(b));
    match first_from(1, n, lists) {
        Some(k) => {
            assert(lists(k as int));
            if k < a {
                assert(nodes[elements[k as int] as int].kind@ != "scheme_list"@);
            } else if k > a {
                assert(!lists(a));
            }
        },
        None => {
            assert(!lists(a));
        },
    }
    match first_from(a + 1, n, lists) {
        Some(k) => {
            assert(lists(k as int));
            if k < b {
                assert(nodes[elements[k as int] as int].kind@ != "scheme_list"@);
            } else if k > b {
                assert(!lists(b));
            }
        },
        None => {
            assert(!lists(b));
        },
    }
}

/// A function takes one argument for each predicate: of the kind that the predicate checks, one that
/// may be left out where the predicate comes with a default, and called by the name written for it. The
/// names go with the predicates from the end, so that names in front without a predicate are passed
/// over.
pub proof fn law_a_function_takes_what_its_predicates_check(
    nodes: Seq<Node>,
    src: Seq<char>,
    elements: Seq<usize>,
    name: Seq<char>,
    a: int,
    b: int,
    i: int,
)
    requires
        elements.len() <= usize::MAX,
        first_two_lists(nodes, elements, a, b),
        forall|k: int|
            0 <= k < elements_of(nodes, elements[a] as int).len() ==> nodes[(
            #[trigger] elements_of(nodes, elements[a] as int)[k]) as int].kind@
                == "scheme_symbol"@,
        forall|k: int|
            0 <= k < elements_of(nodes, elements[b] as int).len() ==> writes_predicate(
                nodes,
                (#[trigger] elements_of(nodes, elements[b] as int)[k]) as int,
            ),
        0 <= i < elements_of(nodes, elements[b] as int).len(),
    ensures
        ({
            let function = function_of(nodes, src, elements, name);
            let names = elements_of(nodes, elements[a] as int);
            let checks = elements_of(nodes, elements[b] as int);
            let param = function->0.params[i];
            let named = nodes[names[names.len() - checks.len() + i] as int];
            &&& function is Some
            &&& function->0.name == name
            &&& function->0.params.len() == checks.len()
            &&& passes(predicate_word(nodes, src, checks[i] as int), param.kind)
            &&& param.optional <==> nodes[checks[i] as int].kind@ != "scheme_symbol"@
            &&& names.len() >= checks.len() ==> param.name == cut_of(
                src,
                named.start as int,
                named.end as int,
            )
        }),
{
    lemma_two_lists(nodes, elements, a, b);
    let names = elements_of(nodes, elements[a] as int);
    let checks = elements_of(nodes, elements[b] as int);
    lemma_names(nodes, src, names, names.len() as int);
    lemma_predicates(nodes, src, checks, checks.len() as int);
    lemma_passes(predicate_word(nodes, src, checks[i] as int));
    let predicate = predicates_among(nodes, src, checks, checks.len() as int)[i];
    assert(predicate.name == predicate_word(nodes, src, checks[i] as int));
}

/// A string behind the predicates documents a function, by itself or marked for translation; it is
/// shown as Markdown. Anything else there documents nothing.
pub proof fn law_the_string_behind_the_predicates_documents_a_function(
    nodes: Seq<Node>,
    src: Seq<char>,
    elements: Seq<usize>,
    name: Seq<char>,
    a: int,
    b: int,
    text: Seq<char>,
)
    requires
        elements.len() <= usize::MAX,
        first_two_lists(nodes, elements, a, b),
    ensures
        ({
            let documentation = function_of(nodes, src, elements, name)->0.documentation;
            let node = nodes[elements[b + 1] as int];
            let inner = elements_of(nodes, elements[b + 1] as int);
            let marked = node.kind@ == "scheme_list"@ && inner.len() >= 2 && cut_of(
                src,
                nodes[inner[0] as int].start as int,
                nodes[inner[0] as int].end as int,
            ) == "_i"@ && nodes[inner[1] as int].kind@ == "scheme_string"@;
            &&& b + 1 == elements.len() ==> documentation is None
            &&& b + 1 < elements.len() && node.kind@ == "scheme_string"@ && says(
                nodes,
                src,
                elements[b + 1] as int,
                text,
            ) ==> documentation == Some(markdown_of(text))
            &&& b + 1 < elements.len() && marked && says(nodes, src, inner[1] as int, text)
                ==> documentation == Some(markdown_of(text))
            &&& b + 1 < elements.len() && node.kind@ != "scheme_string"@ && !marked
                ==> documentation is None
        }),
{
    lemma_two_lists(nodes, elements, a, b);
    reveal_strlit("scheme_string");
    reveal_strlit("scheme_list");
    assert("scheme_string"@.len() == 13);
    assert("scheme_list"@.len() == 11);
    if b + 1 < elements.len() {
        let i = elements[b + 1] as int;
        let inner = elements_of(nodes, i);
        if says(nodes, src, i, text) {
            lemma_says(nodes, src, i, text);
        }
        if inner.len() >= 2 && says(nodes, src, inner[1] as int, text) {
            lemma_says(nodes, src, inner[1] as int, text);
        }
    }
}

/// Whether the parts of a Scheme string, from the first `n`, say a text: pieces of it as they are
/// written, and escapes as what they stand for.
pub open spec fn parts_say(nodes: Seq<Node>, src: Seq<char>, row: Seq<usize>, n: int, text: Seq<char>) -> bool
    decreases n,
{
    if n <= 0 {
        text.len() == 0
    } else {
        let node = nodes[row[n - 1] as int];
        let written = cut_of(src, node.start as int, node.end as int);
        if node.kind@ == "scheme_string_fragment"@ {
            written.len() <= text.len() && text.subrange(
                text.len() - written.len(),
                text.len() as int,
            ) == written && parts_say(
                nodes,
                src,
                row,
                n - 1,
                text.subrange(0, text.len() - written.len()),
            )
        } else if node.kind@ == "scheme_escape_sequence"@ {
            text.len() > 0 && stands_for_char(written, text.last()) && parts_say(
                nodes,
                src,
                row,
                n - 1,
                text.drop_last(),
            )
        } else {
            parts_say(nodes, src, row, n - 1, text)
        }
    }
}

/// Whether an escape stands for a character: a line break, a tab and a carriage return by their
/// letters, and every other character by itself.
pub open spec fn stands_for_char(escape: Seq<char>, c: char) -> bool {
    &&& escape.len() == 2
    &&& escape[0] == '\\'
    &&& escape[1] == 'n' ==> c == '\n'
    &&& escape[1] == 't' ==> c == '\t'
    &&& escape[1] == 'r' ==> c == '\r'
    &&& escape[1] != 'n' && escape[1] != 't' && escape[1] != 'r' ==> c == escape[1]
}

/// Whether a Scheme string says a text.
pub open spec fn says(nodes: Seq<Node>, src: Seq<char>, i: int, text: Seq<char>) -> bool {
    let row = named_of(nodes, i);
    row.len() > 0 && parts_say(nodes, src, row, row.len() as int, text)
}

/// An escape is what it stands for.
pub proof fn law_an_escape_is_what_it_stands_for(escape: Seq<char>, c: char)
    requires
        stands_for_char(escape, c),
    ensures
        unescaped(escape) == seq![c],
{
    reveal_strlit("n");
    reveal_strlit("t");
    reveal_strlit("r");
    reveal_strlit("\n");
    reveal_strlit("\t");
    reveal_strlit("\r");
    let bare = escape.drop_first();
    assert(bare =~= seq![escape[1]]);
    assert("n"@ =~= seq!['n']);
    assert("t"@ =~= seq!['t']);
    assert("r"@ =~= seq!['r']);
    assert("\n"@ =~= seq!['\n']);
    assert("\t"@ =~= seq!['\t']);
    assert("\r"@ =~= seq!['\r']);
    assert(bare[0] == escape[1]);
    assert(seq!['n'][0] == 'n' && seq!['t'][0] == 't' && seq!['r'][0] == 'r');
}

proof fn lemma_parts(nodes: Seq<Node>, src: Seq<char>, row: Seq<usize>, n: int, text: Seq<char>)
    requires
        0 <= n <= row.len(),
        parts_say(nodes, src, row, n, text),
    ensures
        crate::command::scheme::scheme_parts(nodes, src, row, n) == text,
    decreases n,
{
    if n > 0 {
        reveal_strlit("scheme_string_fragment");
        reveal_strlit("scheme_escape_sequence");
        assert("scheme_string_fragment"@.len() == 22 && "scheme_string_fragment"@[7] == 's');
        assert("scheme_escape_sequence"@.len() == 22 && "scheme_escape_sequence"@[7] == 'e');
        let node = nodes[row[n - 1] as int];
        let written = cut_of(src, node.start as int, node.end as int);
        if node.kind@ == "scheme_string_fragment"@ {
            let rest = text.subrange(0, text.len() - written.len());
            lemma_parts(nodes, src, row, n - 1, rest);
            assert(text =~= rest + written);
        } else if node.kind@ == "scheme_escape_sequence"@ {
            lemma_parts(nodes, src, row, n - 1, text.drop_last());
            law_an_escape_is_what_it_stands_for(written, text.last());
            assert(text =~= text.drop_last() + seq![text.last()]);
        } else {
            lemma_parts(nodes, src, row, n - 1, text);
            assert(text =~= text + Seq::<char>::empty());
        }
    } else {
        assert(text =~= Seq::empty());
    }
}

proof fn lemma_says(nodes: Seq<Node>, src: Seq<char>, i: int, text: Seq<char>)
    requires
        says(nodes, src, i, text),
    ensures
        crate::command::scheme::scheme_text(nodes, src, i) == Some(text),
{
    let row = named_of(nodes, i);
    lemma_parts(nodes, src, row, row.len() as int, text);
}

/// Whether a word makes a function out of what follows it.
pub open spec fn makes_function(head: Seq<char>) -> bool {
    head == "define-music-function"@ || head == "define-event-function"@ || head
        == "define-scheme-function"@ || head == "define-void-function"@
}

/// Whether a word binds a name.
pub open spec fn binds_name(head: Seq<char>) -> bool {
    head == "define"@ || head == "define-public"@ || head == "define*"@ || head == "define*-public"@
}

/// `define` and its like bind the word behind them, to a function where one is made there. A form that
/// makes a function binds the name it is assigned to, and no other form binds anything.
pub proof fn law_what_a_scheme_form_binds(
    nodes: Seq<Node>,
    src: Seq<char>,
    list: int,
    assigned: Option<usize>,
)
    requires
        elements_of(nodes, list).len() > 0,
        nodes[elements_of(nodes, list)[0] as int].kind@ == "scheme_symbol"@,
    ensures
        ({
            let elements = elements_of(nodes, list);
            let first = nodes[elements[0] as int];
            let head = cut_of(src, first.start as int, first.end as int);
            let bound = definition_in(nodes, src, list, assigned);
            let named = elements.len() >= 2 && nodes[elements[1] as int].kind@
                == "scheme_symbol"@;
            &&& !makes_function(head) && !binds_name(head) ==> bound is None
            &&& makes_function(head) && assigned is None ==> bound is None
            &&& makes_function(head) && bound is Some ==> bound->0.span == span_of(
                nodes,
                assigned->0 as int,
            ) && bound->0.function is Some
            &&& binds_name(head) ==> (bound is Some <==> named)
            &&& binds_name(head) && named ==> {
                &&& bound->0.span == span_of(nodes, elements[1] as int)
                &&& bound->0.name == cut_of(
                    src,
                    nodes[elements[1] as int].start as int,
                    nodes[elements[1] as int].end as int,
                )
                &&& bound->0.function is Some ==> elements.len() >= 3 && made_in(
                    nodes,
                    src,
                    elements[2] as int,
                )
            }
        }),
{
    lemma_heads();
    let elements = elements_of(nodes, list);
    let first = nodes[elements[0] as int];
    let head = cut_of(src, first.start as int, first.end as int);
    assert(head == source_of(nodes, src, elements[0] as int));
    assert(makes_function(head) == function_form(head));
    assert(binds_name(head) == binding_form(head));
    assert(!(makes_function(head) && binds_name(head)));
    if binds_name(head) && elements.len() >= 3 && nodes[elements[2] as int].kind@
        == "scheme_list"@ {
        let inner = elements_of(nodes, elements[2] as int);
        if inner.len() > 0 {
            let word = source_of(nodes, src, inner[0] as int);
            assert(makes_function(word) == function_form(word));
        }
    }
}

/// Whether a node is a list that makes a function.
pub open spec fn made_in(nodes: Seq<Node>, src: Seq<char>, i: int) -> bool {
    let elements = elements_of(nodes, i);
    &&& nodes[i].kind@ == "scheme_list"@
    &&& elements.len() > 0
    &&& nodes[elements[0] as int].kind@ == "scheme_symbol"@
    &&& makes_function(
        cut_of(
            src,
            nodes[elements[0] as int].start as int,
            nodes[elements[0] as int].end as int,
        ),
    )
}

proof fn lemma_heads()
    ensures
        forall|head: Seq<char>| #[trigger] makes_function(head) ==> !binds_name(head),
{
    reveal_strlit("define-music-function");
    reveal_strlit("define-event-function");
    reveal_strlit("define-scheme-function");
    reveal_strlit("define-void-function");
    reveal_strlit("define");
    reveal_strlit("define-public");
    reveal_strlit("define*");
    reveal_strlit("define*-public");
    assert("define-music-function"@.len() == 21);
    assert("define-event-function"@.len() == 21);
    assert("define-scheme-function"@.len() == 22);
    assert("define-void-function"@.len() == 20);
    assert("define"@.len() == 6);
    assert("define-public"@.len() == 13);
    assert("define*"@.len() == 7);
    assert("define*-public"@.len() == 14);
}

/// Whether the named node at `k` of a context block is the command `word` with the value `name` behind
/// it.
pub open spec fn sets(
    nodes: Seq<Node>,
    src: Seq<char>,
    row: Seq<usize>,
    k: int,
    word: Seq<char>,
    name: Seq<char>,
) -> bool {
    let node = nodes[row[k] as int];
    let value = nodes[row[k + 1] as int];
    &&& 0 <= k
    &&& k + 1 < row.len()
    &&& node.kind@ == "escaped_word"@
    &&& cut_of(src, node.start as int, node.end as int) == word
    &&& value.kind@ == "symbol"@
    &&& cut_of(src, value.start as int, value.end as int) == name
}

/// Whether the named node at `k` of a context block is the command `word`.
pub open spec fn commands(
    nodes: Seq<Node>,
    src: Seq<char>,
    row: Seq<usize>,
    k: int,
    word: Seq<char>,
) -> bool {
    let node = nodes[row[k] as int];
    node.kind@ == "escaped_word"@ && cut_of(src, node.start as int, node.end as int) == word
}

proof fn lemma_kinds()
    ensures
        "symbol"@.len() == 6 && "symbol"@[1] == 'y',
        "string"@.len() == 6 && "string"@[1] == 't',
        "escaped_word"@.len() == 12,
{
    reveal_strlit("symbol");
    reveal_strlit("string");
    reveal_strlit("escaped_word");
}

/// The last `\name` in a context block names the type.
pub proof fn law_the_last_name_in_a_block_names_the_type(
    nodes: Seq<Node>,
    src: Seq<char>,
    row: Seq<usize>,
    n: int,
    k: int,
    name: Seq<char>,
)
    requires
        0 <= k < n <= row.len(),
        sets(nodes, src, row, k, "\\name"@, name),
        forall|j: int| k < j < n ==> !#[trigger] commands(nodes, src, row, j, "\\name"@),
    ensures
        block_name(nodes, src, row, n) == Some((name, span_of(nodes, row[k + 1] as int))),
    decreases n - k,
{
    lemma_kinds();
    if k < n - 1 {
        assert(!commands(nodes, src, row, n - 1, "\\name"@));
        law_the_last_name_in_a_block_names_the_type(nodes, src, row, n - 1, k, name);
    }
}

/// Every `\alias` in a context block is one of the type.
pub proof fn law_every_alias_in_a_block_is_kept(
    nodes: Seq<Node>,
    src: Seq<char>,
    row: Seq<usize>,
    n: int,
    k: int,
    name: Seq<char>,
)
    requires
        0 <= k < n <= row.len(),
        sets(nodes, src, row, k, "\\alias"@, name),
    ensures
        block_aliases(nodes, src, row, n).contains(name),
    decreases n - k,
{
    lemma_kinds();
    let all = block_aliases(nodes, src, row, n);
    let before = block_aliases(nodes, src, row, n - 1);
    if k < n - 1 {
        law_every_alias_in_a_block_is_kept(nodes, src, row, n - 1, k, name);
        let i = choose|i: int| 0 <= i < before.len() && before[i] == name;
        assert(all[i] == name);
    } else {
        assert(all[before.len() as int] == name);
    }
}

/// No alias comes from anywhere else.
pub proof fn law_only_aliases_are_aliases(
    nodes: Seq<Node>,
    src: Seq<char>,
    row: Seq<usize>,
    n: int,
)
    requires
        0 <= n <= row.len(),
        forall|j: int| 0 <= j < n ==> !#[trigger] commands(nodes, src, row, j, "\\alias"@),
    ensures
        block_aliases(nodes, src, row, n).len() == 0,
    decreases n,
{
    if n > 0 {
        assert(!commands(nodes, src, row, n - 1, "\\alias"@));
        law_only_aliases_are_aliases(nodes, src, row, n - 1);
    }
}

/// The last `\description` in a context block with a string behind it describes the type, as Markdown.
pub proof fn law_the_last_description_in_a_block_describes_the_type(
    nodes: Seq<Node>,
    src: Seq<char>,
    row: Seq<usize>,
    n: int,
    k: int,
)
    requires
        0 <= k < n <= row.len(),
        k + 1 < row.len(),
        commands(nodes, src, row, k, "\\description"@),
        nodes[row[k + 1] as int].kind@ == "string"@,
        forall|j: int| k < j < n ==> !#[trigger] commands(nodes, src, row, j, "\\description"@),
    ensures
        block_description(nodes, src, row, n) == Some(
            markdown_of(string_text(nodes, src, row[k + 1] as int)),
        ),
    decreases n - k,
{
    lemma_kinds();
    if k < n - 1 {
        assert(!commands(nodes, src, row, n - 1, "\\description"@));
        law_the_last_description_in_a_block_describes_the_type(nodes, src, row, n - 1, k);
    }
}

/// A context is created by name where an equals sign is followed by one: `\new Staff = "upper"` creates
/// `upper` as a `Staff`.
pub proof fn law_a_context_is_created_by_its_name(
    nodes: Seq<Node>,
    src: Seq<char>,
    i: int,
    eq: int,
    name: Seq<char>,
    place: Span,
)
    requires
        named_of(nodes, i).len() <= usize::MAX,
        2 <= eq,
        eq + 1 < named_of(nodes, i).len(),
        nodes[named_of(nodes, i)[1] as int].kind@ == "symbol"@,
        nodes[named_of(nodes, i)[eq] as int].kind@ == "punctuation"@,
        source_of(nodes, src, named_of(nodes, i)[eq] as int) == seq!['='],
        forall|k: int|
            0 <= k < eq ==> nodes[(#[trigger] named_of(nodes, i)[k]) as int].kind@
                != "punctuation"@ || source_of(nodes, src, named_of(nodes, i)[k] as int)
                != seq!['='],
        name_at(nodes, src, named_of(nodes, i)[eq + 1] as int) == Some((name, place)),
    ensures
        instance_at(nodes, src, i) is Some,
        ({
            let found = instance_at(nodes, src, i)->0;
            let second = nodes[named_of(nodes, i)[1] as int];
            &&& found.name == name
            &&& found.span == place
            &&& found.created_as == Some(cut_of(src, second.start as int, second.end as int))
        }),
{
    reveal_strlit("=");
    assert("="@ =~= seq!['=']);
    let row = named_of(nodes, i);
    let n = row.len() as int;
    let fits = equals_sign(nodes, src, row);
    lemma_first_from(0, n, fits);
    assert(fits(eq));
    match first_from(0, n, fits) {
        Some(k) => {
            assert(fits(k as int));
            if k < eq {
                assert(nodes[row[k as int] as int].kind@ == "punctuation"@);
            } else if k > eq {
                assert(!fits(eq));
            }
        },
        None => {
            assert(!fits(eq));
        },
    }
}

/// The name of a context: a word as it is written, and a string without its quotes.
pub proof fn law_a_name_is_a_word_or_a_string(nodes: Seq<Node>, src: Seq<char>, i: int)
    ensures
        ({
            let found = name_at(nodes, src, i);
            let row = named_of(nodes, i);
            &&& nodes[i].kind@ == "symbol"@ ==> found == Some(
                (cut_of(src, nodes[i].start as int, nodes[i].end as int), span_of(nodes, i)),
            )
            &&& nodes[i].kind@ == "string"@ && row.len() > 0 ==> found == Some(
                (
                    string_text(nodes, src, i),
                    Span {
                        start: nodes[row[0] as int].start,
                        end: nodes[row[row.len() - 1] as int].end,
                    },
                ),
            )
            &&& nodes[i].kind@ == "string"@ && row.len() == 0 ==> found is None
            &&& nodes[i].kind@ != "string"@ && nodes[i].kind@ != "symbol"@ ==> found is None
        }),
{
    lemma_kinds();
}

proof fn lemma_line_ends(text: Seq<char>)
    requires
        !text.contains('\n'),
    ensures
        line_ends(text) == 0,
    decreases text.len(),
{
    if text.len() > 0 {
        assert(text.contains(text[text.len() - 1]));
        let rest = text.drop_last();
        assert forall|i: int| 0 <= i < rest.len() implies rest[i] != '\n' by {
            assert(text.contains(text[i]));
        }
        lemma_line_ends(rest);
    }
}

proof fn lemma_more_ends(text: Seq<char>, line: Seq<char>)
    requires
        !line.contains('\n'),
    ensures
        line_ends(text + seq!['\n'] + line) == line_ends(text) + 1,
    decreases line.len(),
{
    let whole = text + seq!['\n'] + line;
    if line.len() > 0 {
        let rest = line.drop_last();
        assert(line.contains(line[line.len() - 1]));
        assert(whole.last() == line.last());
        assert(whole.drop_last() =~= text + seq!['\n'] + rest);
        assert forall|i: int| 0 <= i < rest.len() implies rest[i] != '\n' by {
            assert(line.contains(line[i]));
        }
        lemma_more_ends(text, rest);
    } else {
        assert(whole.last() == '\n');
        assert(whole.drop_last() =~= text);
    }
}

/// A text without a line break is one line, each line break with something behind it makes one more,
/// and one at the very end makes none.
pub proof fn law_lines_are_counted(text: Seq<char>, line: Seq<char>)
    requires
        !line.contains('\n'),
        line.len() > 0,
    ensures
        line_count(line) == 1,
        line_count(line + seq!['\n']) == 1,
        text.len() > 0 && text.last() != '\n' ==> line_count(text + seq!['\n'] + line)
            == line_count(text) + 1,
{
    lemma_line_ends(line);
    assert(line.contains(line[line.len() - 1]));
    assert((line + seq!['\n']).drop_last() =~= line);
    assert((line + seq!['\n']).last() == '\n');
    if text.len() > 0 && text.last() != '\n' {
        lemma_more_ends(text, line);
        assert((text + seq!['\n'] + line).last() == line.last());
    }
}

/// A value of up to five lines is shown in full, as what its name is set to; a longer one by its
/// outline, where there is one.
pub proof fn law_a_short_value_is_shown_in_full(
    name: Seq<char>,
    value: Value,
    tree: Option<SyntaxTree>,
    text: Seq<char>,
)
    requires
        value_text(value) == Some(text),
    ensures
        line_count(text) <= 5 ==> summary(name, value, tree) == Some(
            "```lilypond\n"@ + (name + seq![' ', '=', ' '] + text) + "\n```"@,
        ),
        line_count(text) > 5 && tree is None ==> summary(name, value, tree) is None,
{
    reveal_strlit(" = ");
    assert(" = "@ =~= seq![' ', '=', ' ']);
}

/// The number that a parameter without a name is called by reads back as that number.
pub proof fn law_a_number_reads_back(n: nat)
    ensures
        digits_value(decimal(n)) == Some(n),
        decimal(n).len() > 0,
    decreases n,
{
    let text = decimal(n);
    assert(digits_value(Seq::<char>::empty()) == Some(0nat));
    if n < 10 {
        assert(text.drop_last() =~= Seq::empty());
        assert(text.last() == digit(n));
        assert((48 + n) as char as nat == 48 + n);
    } else {
        law_a_number_reads_back(n / 10);
        assert(text.drop_last() =~= decimal(n / 10));
        assert(text.last() == digit(n % 10));
        assert((48 + n % 10) as char as nat == 48 + n % 10);
    }
}

/// A parameter for which no name is written is called `arg` and its number, counted from one.
pub proof fn law_a_parameter_without_a_name_is_numbered(
    names: Seq<Seq<char>>,
    predicates: Seq<PredicateView>,
    i: int,
)
    requires
        0 <= i < predicates.len(),
        names.len() <= i,
    ensures
        ({
            let name = parameters_of(names, predicates)[i].name;
            &&& name.len() > 3
            &&& name.subrange(0, 3) == seq!['a', 'r', 'g']
            &&& digits_value(name.subrange(3, name.len() as int)) == Some((i + 1) as nat)
        }),
{
    reveal_strlit("arg");
    assert("arg"@ =~= seq!['a', 'r', 'g']);
    let number = decimal((i + 1) as nat);
    law_a_number_reads_back((i + 1) as nat);
    let name = parameters_of(names, predicates)[i].name;
    assert(name == "arg"@ + number);
    assert(name.subrange(0, 3) =~= seq!['a', 'r', 'g']);
    assert(name.subrange(3, name.len() as int) =~= number);
}

/// Whether the parts of a string, from the first `n`, say a text: pieces of it as they are written, and
/// escapes as what they stand for.
pub open spec fn pieces_say(nodes: Seq<Node>, src: Seq<char>, row: Seq<usize>, n: int, text: Seq<char>) -> bool
    decreases n,
{
    if n <= 0 {
        text.len() == 0
    } else {
        let node = nodes[row[n - 1] as int];
        let written = cut_of(src, node.start as int, node.end as int);
        if node.kind@ == "string_fragment"@ {
            written.len() <= text.len() && text.subrange(
                text.len() - written.len(),
                text.len() as int,
            ) == written && pieces_say(
                nodes,
                src,
                row,
                n - 1,
                text.subrange(0, text.len() - written.len()),
            )
        } else if node.kind@ == "escape_sequence"@ {
            text.len() > 0 && stands_for_char(written, text.last()) && pieces_say(
                nodes,
                src,
                row,
                n - 1,
                text.drop_last(),
            )
        } else {
            pieces_say(nodes, src, row, n - 1, text)
        }
    }
}

/// What a string says is what its parts do, one behind the other.
pub proof fn law_a_string_says_what_its_parts_do(
    nodes: Seq<Node>,
    src: Seq<char>,
    row: Seq<usize>,
    n: int,
    text: Seq<char>,
)
    requires
        0 <= n <= row.len(),
        pieces_say(nodes, src, row, n, text),
    ensures
        string_parts(nodes, src, row, n) == text,
    decreases n,
{
    if n > 0 {
        reveal_strlit("string_fragment");
        reveal_strlit("escape_sequence");
        assert("string_fragment"@.len() == 15 && "string_fragment"@[0] == 's');
        assert("escape_sequence"@.len() == 15 && "escape_sequence"@[0] == 'e');
        let node = nodes[row[n - 1] as int];
        let written = cut_of(src, node.start as int, node.end as int);
        if node.kind@ == "string_fragment"@ {
            let rest = text.subrange(0, text.len() - written.len());
            law_a_string_says_what_its_parts_do(nodes, src, row, n - 1, rest);
            assert(text =~= rest + written);
        } else if node.kind@ == "escape_sequence"@ {
            law_a_string_says_what_its_parts_do(nodes, src, row, n - 1, text.drop_last());
            law_an_escape_is_what_it_stands_for(written, text.last());
            assert(text =~= text.drop_last() + seq![text.last()]);
        } else {
            law_a_string_says_what_its_parts_do(nodes, src, row, n - 1, text);
            assert(text =~= text + Seq::<char>::empty());
        }
    } else {
        assert(text =~= Seq::empty());
    }
}

/// Whether a node is a block with delimiters of its own.
pub open spec fn is_delimited(nodes: Seq<Node>, i: int) -> bool {
    (nodes[i].kind@ == "expression_block"@ || nodes[i].kind@ == "parallel_music"@) && children_of(
        nodes,
        i,
    ).len() >= 2
}

/// In an outline what stands on one line is shown as it is, what does not is left out, and of a block
/// only the delimiters are shown, with what is between them left out; unless that is a single command
/// that wraps other music, such as `\relative`, with the block it wraps.
pub proof fn law_an_outline_leaves_out_what_blocks_hold(nodes: Seq<Node>, src: Seq<char>, i: int)
    requires
        nested(nodes),
        0 <= i < nodes.len(),
    ensures
        ({
            let text = cut_of(src, nodes[i].start as int, nodes[i].end as int);
            let row = children_of(nodes, i);
            let first = nodes[row[0] as int];
            let second = nodes[row[1] as int];
            let last = nodes[row[row.len() - 1] as int];
            let shown = sketched(nodes, src, i);
            let dots = "…"@;
            &&& !is_delimited(nodes, i) && !text.contains('\n') ==> shown == text
            &&& !is_delimited(nodes, i) && text.contains('\n') ==> shown == dots
            &&& is_delimited(nodes, i) && (row.len() == 2 || !wraps_music(
                cut_of(src, second.start as int, second.end as int),
            )) ==> shown == cut_of(src, first.start as int, first.end as int) + seq![' '] + dots
                + seq![' '] + cut_of(src, last.start as int, last.end as int)
        }),
{
    reveal_strlit(" ");
    assert(" "@ =~= seq![' ']);
}

/// Whether a command wraps other music: it moves its pitches, or says how it is entered.
pub open spec fn wraps_music(word: Seq<char>) -> bool {
    word == "\\transpose"@ || word == "\\relative"@ || word == "\\fixed"@ || enters_mode(word)
}

/// Whether a command enters a mode, by its long or its short name.
pub open spec fn enters_mode(word: Seq<char>) -> bool {
    word == "\\notemode"@ || word == "\\notes"@ || word == "\\chordmode"@ || word == "\\chords"@
        || word == "\\drummode"@ || word == "\\drums"@ || word == "\\figuremode"@ || word
        == "\\figures"@ || word == "\\lyricmode"@ || word == "\\lyrics"@
}

/// A block that holds just such a command and, at its end, the one block that it wraps is outlined with
/// the outline of both.
pub proof fn law_an_outline_shows_what_wraps_music(
    nodes: Seq<Node>,
    src: Seq<char>,
    i: int,
    block: int,
)
    requires
        nested(nodes),
        nodes.len() <= usize::MAX,
        0 <= i < nodes.len(),
        is_delimited(nodes, i),
        children_of(nodes, i).len() == 4,
        wraps_music(
            cut_of(
                src,
                nodes[children_of(nodes, i)[1] as int].start as int,
                nodes[children_of(nodes, i)[1] as int].end as int,
            ),
        ),
        nodes[children_of(nodes, i)[1] as int].kind@ == "escaped_word"@,
        children_of(nodes, i)[2] == block,
        nodes[block].kind@ == "expression_block"@ || nodes[block].kind@ == "parallel_music"@,
    ensures
        ({
            let row = children_of(nodes, i);
            let gap = if nodes[row[1] as int].end < nodes[block].start {
                seq![' ']
            } else {
                Seq::empty()
            };
            sketched(nodes, src, i) == cut_of(
                src,
                nodes[row[0] as int].start as int,
                nodes[row[0] as int].end as int,
            ) + seq![' '] + (sketched(nodes, src, row[1] as int) + gap + sketched(
                nodes,
                src,
                block,
            )) + seq![' '] + cut_of(
                src,
                nodes[row[3] as int].start as int,
                nodes[row[3] as int].end as int,
            )
        }),
{
    reveal_strlit(" ");
    reveal_strlit("");
    reveal_strlit("escaped_word");
    reveal_strlit("expression_block");
    reveal_strlit("parallel_music");
    assert(" "@ =~= seq![' ']);
    assert(""@ =~= Seq::<char>::empty());
    assert("escaped_word"@.len() == 12);
    assert("expression_block"@.len() == 16);
    assert("parallel_music"@.len() == 14);
    lemma_children(nodes, i);
    let row = children_of(nodes, i);
    assert(wrapped_music(nodes, src, i, 1, 3)) by {
        assert forall|k: int| 1 <= k < 2 implies !crate::command::reader::block_kind(
            nodes[(#[trigger] row[k]) as int].kind@,
        ) by {
            assert(k == 1);
        }
    }
    lemma_smaller_children(nodes, i);
    assert(sketched_row(nodes, src, i, 1, 1) == Seq::<char>::empty());
    assert(sketched_row(nodes, src, i, 1, 2) =~= sketched(nodes, src, row[1] as int));
    let gap = gap_between(nodes[row[1] as int].end, nodes[block].start);
    assert(sketched_row(nodes, src, i, 1, 3) =~= sketched(nodes, src, row[1] as int) + gap
        + sketched(nodes, src, block));
}

/// Whether a block is declared as a context type: it stands behind `\context`, in what could be parsed,
/// and names a type.
pub open spec fn declares(
    nodes: Seq<Node>,
    src: Seq<char>,
    block: int,
    keyword: usize,
    name: Seq<char>,
    place: Span,
) -> bool {
    &&& 0 <= block < nodes.len()
    &&& nodes[block].kind@ == "expression_block"@
    &&& !nodes[nodes[block].parent as int].error
    &&& named_sibling_before(nodes, block) == Some(keyword)
    &&& nodes[keyword as int].kind@ == "escaped_word"@
    &&& cut_of(
        src,
        nodes[keyword as int].start as int,
        nodes[keyword as int].end as int,
    ) == seq!['\\'] + "context"@
    &&& block_name(nodes, src, named_of(nodes, block), named_of(nodes, block).len() as int) == Some(
        (name, place),
    )
}

/// Every block behind `\context` that names a type declares it, from the keyword to the end of the
/// block.
pub proof fn law_every_named_context_block_declares_a_type(
    nodes: Seq<Node>,
    src: Seq<char>,
    n: int,
    block: int,
    keyword: usize,
    name: Seq<char>,
    place: Span,
)
    requires
        0 <= block < n <= nodes.len(),
        declares(nodes, src, block, keyword, name, place),
    ensures
        exists|i: int|
            {
                &&& 0 <= i < declared_types(nodes, src, n).len()
                &&& (#[trigger] declared_types(nodes, src, n)[i]).name == name
                &&& declared_types(nodes, src, n)[i].name_span == place
                &&& declared_types(nodes, src, n)[i].block_span == (Span {
                    start: nodes[keyword as int].start,
                    end: nodes[block].end,
                })
            },
    decreases n,
{
    reveal_strlit("\\context");
    reveal_strlit("context");
    assert("\\context"@ =~= seq!['\\'] + "context"@);
    let before = declared_types(nodes, src, n - 1);
    let all = declared_types(nodes, src, n);
    if block < n - 1 {
        law_every_named_context_block_declares_a_type(nodes, src, n - 1, block, keyword, name, place);
        let i = choose|i: int|
            {
                &&& 0 <= i < before.len()
                &&& (#[trigger] before[i]).name == name
                &&& before[i].name_span == place
                &&& before[i].block_span == (Span {
                    start: nodes[keyword as int].start,
                    end: nodes[block].end,
                })
            };
        assert(all[i] == before[i]);
    } else {
        assert(declared_at(nodes, src, block) is Some);
        assert(all[before.len() as int].name == name);
    }
}

/// Every named context in the music creates an instance.
pub proof fn law_every_named_context_creates_an_instance(
    nodes: Seq<Node>,
    src: Seq<char>,
    n: int,
    k: int,
)
    requires
        0 <= k < n <= nodes.len(),
        nodes[k].kind@ == "named_context"@,
        instance_at(nodes, src, k) is Some,
    ensures
        created_instances(nodes, src, n).contains(instance_at(nodes, src, k)->0),
    decreases n,
{
    let before = created_instances(nodes, src, n - 1);
    let all = created_instances(nodes, src, n);
    let one = instance_at(nodes, src, k)->0;
    if k < n - 1 {
        law_every_named_context_creates_an_instance(nodes, src, n - 1, k);
        let i = choose|i: int| 0 <= i < before.len() && before[i] == one;
        assert(all[i] == one);
    } else {
        assert(all[before.len() as int] == one);
    }
}

/// The name that embedded Scheme is assigned to is the word on the left-hand side right before its
/// equals sign; without an equals sign or a left-hand side it is assigned to none.
pub proof fn law_scheme_is_assigned_to_the_name_before_its_equals_sign(
    nodes: Seq<Node>,
    src: Seq<char>,
    i: int,
)
    ensures
        ({
            let sign = sibling_before(nodes, i);
            let lhs = sibling_before(nodes, sign->0 as int);
            let equals = sign is Some && cut_of(
                src,
                nodes[sign->0 as int].start as int,
                nodes[sign->0 as int].end as int,
            ) == seq!['='];
            let left = equals && lhs is Some && nodes[lhs->0 as int].kind@ == "assignment_lhs"@;
            &&& left ==> assigned_to(nodes, src, i) == child_of(nodes, lhs->0 as int, "symbol"@)
            &&& !left ==> assigned_to(nodes, src, i) is None
        }),
{
    reveal_strlit("=");
    assert("="@ =~= seq!['=']);
}

/// What embedded Scheme binds at the top of a tree is bound by the file, and reading goes on behind it.
pub proof fn law_embedded_scheme_binds_what_it_defines(nodes: Seq<Node>, src: Seq<char>, at: int)
    requires
        0 <= at < nodes.len(),
        at < nodes[at].past <= nodes.len(),
    ensures
        nodes[at].kind@ != "embedded_scheme"@ ==> scheme_bindings(nodes, src, at)
            == scheme_bindings(nodes, src, at + 1),
        nodes[at].kind@ == "embedded_scheme"@ && embedded_binding(nodes, src, at) is Some
            ==> scheme_bindings(nodes, src, at).len() > 0 && scheme_bindings(nodes, src, at)[0]
            == embedded_binding(nodes, src, at)->0 && scheme_bindings(nodes, src, at).subrange(
            1,
            scheme_bindings(nodes, src, at).len() as int,
        ) == scheme_bindings(nodes, src, nodes[at].past as int),
{
    let rest = scheme_bindings(nodes, src, nodes[at].past as int);
    if nodes[at].kind@ == "embedded_scheme"@ && embedded_binding(nodes, src, at) is Some {
        let all = scheme_bindings(nodes, src, at);
        assert(all =~= seq![embedded_binding(nodes, src, at)->0] + rest);
        assert(all.subrange(1, all.len() as int) =~= rest);
    }
}

} // verus!
