//! Definitions read out of embedded Scheme.
//!
//! `myFunc = #(define-music-function (a b) (pred? pred?) …)` says what arguments `\myFunc` takes,
//! and `#(define-public foo …)` binds a name that `\foo` can reach. Nothing inside a function's body
//! is read.
use vstd::prelude::*;
use vstd::string::StringExecFns;
use crate::command::definition::Binding;
use crate::command::texinfo::{markdown_of, texinfo_to_markdown};
use crate::command::{
    ArgKind, Behaviour, Command, KindView, Param, ParamView, kind_view, lemma_param_views_push,
    param_view, param_views,
};
use crate::context::{named_children, named_of, unescape, unescaped};
use crate::finding::first_from;
use crate::line_struct::Span;
use crate::syntax::{Node, SyntaxTree, children_of, sibling_before, span_of};
use crate::text::{cut, cut_of, same};

verus! {

/// Whether `head` is a form that defines a `\command` with a signature.
pub open spec fn function_form(head: Seq<char>) -> bool {
    head == "define-music-function"@ || head == "define-event-function"@ || head
        == "define-scheme-function"@ || head == "define-void-function"@
}

pub fn is_function_form(head: &str) -> (r: bool)
    ensures
        r == function_form(head@),
{
    same(head, "define-music-function") || same(head, "define-event-function") || same(
        head,
        "define-scheme-function",
    ) || same(head, "define-void-function")
}

/// Whether `head` is a form that gives something a name from inside Scheme.
pub open spec fn binding_form(head: Seq<char>) -> bool {
    head == "define"@ || head == "define-public"@ || head == "define*"@ || head
        == "define*-public"@
}

pub fn is_binding_form(head: &str) -> (r: bool)
    ensures
        r == binding_form(head@),
{
    same(head, "define") || same(head, "define-public") || same(head, "define*") || same(
        head,
        "define*-public",
    )
}

/// The meaningful elements among the first `n` of a row of nodes: those that are named and no
/// comment.
pub open spec fn elements_among(nodes: Seq<Node>, row: Seq<usize>, n: int) -> Seq<usize>
    decreases n,
{
    if n <= 0 {
        Seq::empty()
    } else {
        let before = elements_among(nodes, row, n - 1);
        let node = nodes[row[n - 1] as int];
        if node.named && node.kind@ != "comment"@ {
            before.push(row[n - 1])
        } else {
            before
        }
    }
}

/// The meaningful elements of a Scheme list.
pub open spec fn elements_of(nodes: Seq<Node>, list: int) -> Seq<usize> {
    let row = children_of(nodes, list);
    elements_among(nodes, row, row.len() as int)
}

/// The meaningful elements of a Scheme list: its named children, minus comments.
pub fn items(tree: &SyntaxTree, list: usize) -> (r: Vec<usize>)
    requires
        tree.wf(),
        list < tree.nodes@.len(),
    ensures
        r@ == elements_of(tree.nodes@, list as int),
        forall|k: int| 0 <= k < r@.len() ==> list < (#[trigger] r@[k]) < tree.nodes@.len(),
{
    let row = tree.children(list);
    let mut out: Vec<usize> = Vec::new();
    let mut k: usize = 0;
    while k < row.len()
        invariant
            k <= row@.len(),
            forall|k: int| 0 <= k < row@.len() ==> list < (#[trigger] row@[k]) < tree.nodes@.len(),
            forall|k: int| 0 <= k < out@.len() ==> list < (#[trigger] out@[k]) < tree.nodes@.len(),
            out@ == elements_among(tree.nodes@, row@, k as int),
        decreases row.len() - k,
    {
        if tree.nodes[row[k]].named && !tree.is(row[k], "comment") {
            out.push(row[k]);
        }
        k = k + 1;
    }
    out
}

/// Which of a row of nodes are of a kind.
pub open spec fn of_kind(nodes: Seq<Node>, row: Seq<usize>, kind: Seq<char>) -> spec_fn(int) -> bool {
    |k: int| nodes[row[k] as int].kind@ == kind
}

/// The first child of a kind.
pub open spec fn child_of(nodes: Seq<Node>, i: int, kind: Seq<char>) -> Option<usize> {
    let row = children_of(nodes, i);
    match first_from(0, row.len() as int, of_kind(nodes, row, kind)) {
        Some(k) => Some(row[k as int]),
        None => None,
    }
}

/// The first child of node `i` of the kind `kind`.
pub fn child_of_kind(tree: &SyntaxTree, i: usize, kind: &str) -> (r: Option<usize>)
    requires
        tree.wf(),
        i < tree.nodes@.len(),
    ensures
        r == child_of(tree.nodes@, i as int, kind@),
        r is Some ==> i < r->0 < tree.nodes@.len(),
{
    let row = tree.children(i);
    let ghost fits = of_kind(tree.nodes@, row@, kind@);
    let mut k: usize = 0;
    while k < row.len()
        invariant
            k <= row@.len(),
            row@ == children_of(tree.nodes@, i as int),
            forall|k: int| 0 <= k < row@.len() ==> i < (#[trigger] row@[k]) < tree.nodes@.len(),
            fits == of_kind(tree.nodes@, row@, kind@),
            first_from(0, row@.len() as int, fits) == first_from(k as int, row@.len() as int, fits),
        decreases row.len() - k,
    {
        if tree.is(row[k], kind) {
            return Some(row[k]);
        }
        k = k + 1;
    }
    None
}

/// The source of a node.
pub open spec fn source_of(nodes: Seq<Node>, src: Seq<char>, i: int) -> Seq<char> {
    cut_of(src, nodes[i].start as int, nodes[i].end as int)
}

pub fn text<'a>(tree: &SyntaxTree, i: usize, src: &'a str) -> (r: &'a str)
    requires
        i < tree.nodes@.len(),
    ensures
        r@ == source_of(tree.nodes@, src@, i as int),
{
    cut(src, tree.nodes[i].start, tree.nodes[i].end)
}

/// The shape of argument that a predicate implies, for those whose shape is known.
pub open spec fn shape_for(predicate: Seq<char>) -> KindView {
    if predicate == "ly:music?"@ {
        KindView::Music
    } else if predicate == "ly:pitch?"@ {
        KindView::Pitch
    } else if predicate == "string?"@ {
        KindView::String
    } else if predicate == "integer?"@ || predicate == "index?"@ || predicate
        == "positive-integer?"@ || predicate == "non-negative-integer?"@ {
        KindView::Count
    } else {
        KindView::Unknown(predicate)
    }
}

/// The source shape a predicate implies. A predicate whose shape is not known consumes one node,
/// named after the predicate.
pub fn arg_kind(predicate: &str) -> (r: ArgKind)
    ensures
        kind_view(r) == shape_for(predicate@),
{
    if same(predicate, "ly:music?") {
        ArgKind::Music
    } else if same(predicate, "ly:pitch?") {
        ArgKind::Pitch
    } else if same(predicate, "string?") {
        ArgKind::String
    } else if same(predicate, "integer?") || same(predicate, "index?") || same(
        predicate,
        "positive-integer?",
    ) || same(predicate, "non-negative-integer?") {
        ArgKind::Count
    } else {
        ArgKind::Unknown(predicate.to_string())
    }
}

/// One entry of a definition's predicate list: the predicate's name, and whether it is paired with
/// a default.
pub struct PredicateView {
    pub name: Seq<char>,
    pub optional: bool,
}

/// The predicate that a node writes: a word, or a list of a word and a default.
pub open spec fn predicate_of(nodes: Seq<Node>, src: Seq<char>, i: int) -> Option<PredicateView> {
    if nodes[i].kind@ == "scheme_symbol"@ {
        Some(PredicateView { name: source_of(nodes, src, i), optional: false })
    } else if nodes[i].kind@ == "scheme_list"@ {
        let inner = elements_of(nodes, i);
        if inner.len() > 0 && nodes[inner[0] as int].kind@ == "scheme_symbol"@ {
            Some(PredicateView { name: source_of(nodes, src, inner[0] as int), optional: true })
        } else {
            None
        }
    } else {
        None
    }
}

/// The predicates that the first `n` elements of a list write.
pub open spec fn predicates_among(nodes: Seq<Node>, src: Seq<char>, elements: Seq<usize>, n: int) -> Seq<
    PredicateView,
>
    decreases n,
{
    if n <= 0 {
        Seq::empty()
    } else {
        let before = predicates_among(nodes, src, elements, n - 1);
        match predicate_of(nodes, src, elements[n - 1] as int) {
            Some(predicate) => before.push(predicate),
            None => before,
        }
    }
}

/// The words among the first `n` elements of a list.
pub open spec fn names_among(nodes: Seq<Node>, src: Seq<char>, elements: Seq<usize>, n: int) -> Seq<
    Seq<char>,
>
    decreases n,
{
    if n <= 0 {
        Seq::empty()
    } else {
        let before = names_among(nodes, src, elements, n - 1);
        let i = elements[n - 1] as int;
        if nodes[i].kind@ == "scheme_symbol"@ {
            before.push(source_of(nodes, src, i))
        } else {
            before
        }
    }
}

/// A number in decimal digits.
pub open spec fn decimal(n: nat) -> Seq<char>
    decreases n,
{
    if n < 10 {
        seq![digit(n)]
    } else {
        decimal(n / 10).push(digit(n % 10))
    }
}

/// A decimal digit.
pub open spec fn digit(n: nat) -> char {
    (48 + n) as char
}

fn push_digit(out: &mut String, n: u64)
    requires
        n < 10,
    ensures
        final(out)@ == old(out)@.push(digit(n as nat)),
{
    let text = if n == 0 {
        "0"
    } else if n == 1 {
        "1"
    } else if n == 2 {
        "2"
    } else if n == 3 {
        "3"
    } else if n == 4 {
        "4"
    } else if n == 5 {
        "5"
    } else if n == 6 {
        "6"
    } else if n == 7 {
        "7"
    } else if n == 8 {
        "8"
    } else {
        "9"
    };
    proof {
        reveal_strlit("0");
        reveal_strlit("1");
        reveal_strlit("2");
        reveal_strlit("3");
        reveal_strlit("4");
        reveal_strlit("5");
        reveal_strlit("6");
        reveal_strlit("7");
        reveal_strlit("8");
        reveal_strlit("9");
        assert(text@ =~= seq![digit(n as nat)]);
    }
    let ghost before = out@;
    out.append(text);
    assert(out@ =~= before.push(digit(n as nat)));
}

/// Writes a number in decimal digits.
pub fn push_decimal(out: &mut String, n: u64)
    ensures
        final(out)@ == old(out)@ + decimal(n as nat),
    decreases n,
{
    let ghost before = out@;
    if n >= 10 {
        push_decimal(out, n / 10);
    }
    push_digit(out, n % 10);
    assert(out@ =~= before + decimal(n as nat));
}

/// Where the names of a definition's arguments meet its predicates: they are aligned from the
/// right, so that names without a predicate of their own come first and are left out.
pub open spec fn surplus(names: nat, predicates: nat) -> int {
    if names > predicates {
        names - predicates
    } else {
        0
    }
}

/// The parameter that predicate `i` makes.
pub open spec fn parameter_at(names: Seq<Seq<char>>, predicates: Seq<PredicateView>, i: int) -> ParamView {
    let at = surplus(names.len(), predicates.len()) + i;
    ParamView {
        name: if at < names.len() {
            names[at]
        } else {
            "arg"@ + decimal((i + 1) as nat)
        },
        kind: shape_for(predicates[i].name),
        optional: predicates[i].optional,
    }
}

/// The parameters that names and predicates make.
pub open spec fn parameters_of(names: Seq<Seq<char>>, predicates: Seq<PredicateView>) -> Seq<
    ParamView,
> {
    Seq::new(predicates.len(), |i: int| parameter_at(names, predicates, i))
}

/// What one part of a Scheme string stands for.
pub open spec fn scheme_part(nodes: Seq<Node>, src: Seq<char>, i: int) -> Seq<char> {
    if nodes[i].kind@ == "scheme_string_fragment"@ {
        source_of(nodes, src, i)
    } else if nodes[i].kind@ == "scheme_escape_sequence"@ {
        unescaped(source_of(nodes, src, i))
    } else {
        Seq::empty()
    }
}

/// What the first `n` parts of a Scheme string stand for.
pub open spec fn scheme_parts(nodes: Seq<Node>, src: Seq<char>, row: Seq<usize>, n: int) -> Seq<char>
    decreases n,
{
    if n <= 0 {
        Seq::empty()
    } else {
        scheme_parts(nodes, src, row, n - 1) + scheme_part(nodes, src, row[n - 1] as int)
    }
}

/// The text a Scheme string stands for, with its escapes decoded; none where it is empty.
pub open spec fn scheme_text(nodes: Seq<Node>, src: Seq<char>, i: int) -> Option<Seq<char>> {
    let row = named_of(nodes, i);
    if row.len() == 0 {
        None
    } else {
        Some(scheme_parts(nodes, src, row, row.len() as int))
    }
}

/// The text a `scheme_string` node stands for, with its escapes decoded. `None` where there is
/// nothing between its quotes.
pub fn string_value(tree: &SyntaxTree, string: usize, src: &str) -> (r: Option<String>)
    requires
        tree.wf(),
        string < tree.nodes@.len(),
    ensures
        match r {
            Some(text) => scheme_text(tree.nodes@, src@, string as int) == Some(text@),
            None => scheme_text(tree.nodes@, src@, string as int) is None,
        },
{
    let row = named_children(tree, string);
    if row.len() == 0 {
        return None;
    }
    let mut out = String::new();
    let mut k: usize = 0;
    while k < row.len()
        invariant
            k <= row@.len(),
            forall|k: int| 0 <= k < row@.len() ==> (#[trigger] row@[k]) < tree.nodes@.len(),
            out@ == scheme_parts(tree.nodes@, src@, row@, k as int),
        decreases row.len() - k,
    {
        let ghost before = out@;
        if tree.is(row[k], "scheme_string_fragment") {
            out.append(text(tree, row[k], src));
        } else if tree.is(row[k], "scheme_escape_sequence") {
            let meant = unescape(text(tree, row[k], src));
            out.append(meant.as_str());
        }
        assert(out@ =~= before + scheme_part(tree.nodes@, src@, row@[k as int] as int));
        k = k + 1;
    }
    Some(out)
}

/// The docstring at element `at`: a string, or one wrapped for translation as `(_i "…")`, as
/// Markdown.
pub open spec fn docstring_at(nodes: Seq<Node>, src: Seq<char>, elements: Seq<usize>, at: int) -> Option<
    Seq<char>,
> {
    if at >= elements.len() {
        None
    } else {
        let i = elements[at] as int;
        let inner = elements_of(nodes, i);
        let string = if nodes[i].kind@ == "scheme_string"@ {
            Some(elements[at])
        } else if nodes[i].kind@ == "scheme_list"@ && inner.len() >= 2 && source_of(
            nodes,
            src,
            inner[0] as int,
        ) == "_i"@ && nodes[inner[1] as int].kind@ == "scheme_string"@ {
            Some(inner[1])
        } else {
            None
        };
        match string {
            Some(s) => match scheme_text(nodes, src, s as int) {
                Some(text) => Some(markdown_of(text)),
                None => None,
            },
            None => None,
        }
    }
}

/// A function read out of Scheme: its name, parameters and documentation.
pub struct FunctionView {
    pub name: Seq<char>,
    pub params: Seq<ParamView>,
    pub documentation: Option<Seq<char>>,
}

/// The function that the elements of a definition make; none where it has no list of arguments and
/// list of predicates yet.
pub open spec fn function_of(nodes: Seq<Node>, src: Seq<char>, elements: Seq<usize>, name: Seq<char>) -> Option<
    FunctionView,
> {
    let n = elements.len() as int;
    let lists = of_kind(nodes, elements, "scheme_list"@);
    match first_from(1, n, lists) {
        None => None,
        Some(first) => match first_from(first + 1, n, lists) {
            None => None,
            Some(second) => {
                let written = elements_of(nodes, elements[first as int] as int);
                let checked = elements_of(nodes, elements[second as int] as int);
                Some(
                    FunctionView {
                        name,
                        params: parameters_of(
                            names_among(nodes, src, written, written.len() as int),
                            predicates_among(nodes, src, checked, checked.len() as int),
                        ),
                        documentation: docstring_at(nodes, src, elements, second + 1),
                    },
                )
            },
        },
    }
}

/// Whether a command is the function that a definition makes.
pub open spec fn is_function(command: Command, function: FunctionView) -> bool {
    &&& command.name@ == function.name
    &&& param_views(command.params@) == function.params
    &&& command.behaviour is Scheme
    &&& match command.documentation {
        Some(text) => function.documentation == Some(text@),
        None => function.documentation is None,
    }
    &&& command.completions@.len() == 0
    &&& command.definition is None
    &&& command.redefines is None
}

/// The docstring of a definition: the string at element `at`, its escapes decoded, converted to
/// Markdown.
pub fn docstring(tree: &SyntaxTree, elements: &Vec<usize>, at: usize, src: &str) -> (r: Option<
    String,
>)
    requires
        tree.wf(),
        forall|k: int| 0 <= k < elements@.len() ==> (#[trigger] elements@[k]) < tree.nodes@.len(),
    ensures
        match r {
            Some(text) => docstring_at(tree.nodes@, src@, elements@, at as int) == Some(text@),
            None => docstring_at(tree.nodes@, src@, elements@, at as int) is None,
        },
{
    if at >= elements.len() {
        return None;
    }
    let i = elements[at];
    let string = if tree.is(i, "scheme_string") {
        i
    } else if tree.is(i, "scheme_list") {
        let inner = items(tree, i);
        if inner.len() < 2 || !same(text(tree, inner[0], src), "_i") || !tree.is(
            inner[1],
            "scheme_string",
        ) {
            return None;
        }
        inner[1]
    } else {
        return None;
    };
    match string_value(tree, string, src) {
        Some(text) => Some(texinfo_to_markdown(text.as_str())),
        None => None,
    }
}

/// One entry of a definition's predicate list.
#[derive(Debug)]
pub struct Predicate {
    pub name: String,
    /// Paired with the value to use when the argument isn't there.
    pub optional: bool,
}

impl View for Predicate {
    type V = PredicateView;

    open spec fn view(&self) -> PredicateView {
        PredicateView { name: self.name@, optional: self.optional }
    }
}

/// What each of a run of predicates says.
pub open spec fn predicate_views(predicates: Seq<Predicate>) -> Seq<PredicateView> {
    predicates.map_values(|predicate: Predicate| predicate@)
}

/// The predicate that a node writes.
pub fn predicate(tree: &SyntaxTree, i: usize, src: &str) -> (r: Option<Predicate>)
    requires
        tree.wf(),
        i < tree.nodes@.len(),
    ensures
        match r {
            Some(found) => predicate_of(tree.nodes@, src@, i as int) == Some(found@),
            None => predicate_of(tree.nodes@, src@, i as int) is None,
        },
{
    if tree.is(i, "scheme_symbol") {
        Some(Predicate { name: text(tree, i, src).to_string(), optional: false })
    } else if tree.is(i, "scheme_list") {
        let inner = items(tree, i);
        if inner.len() > 0 && tree.is(inner[0], "scheme_symbol") {
            Some(Predicate { name: text(tree, inner[0], src).to_string(), optional: true })
        } else {
            None
        }
    } else {
        None
    }
}

fn collect_predicates(tree: &SyntaxTree, list: usize, src: &str) -> (r: Vec<Predicate>)
    requires
        tree.wf(),
        list < tree.nodes@.len(),
    ensures
        ({
            let elements = elements_of(tree.nodes@, list as int);
            predicate_views(r@) == predicates_among(
                tree.nodes@,
                src@,
                elements,
                elements.len() as int,
            )
        }),
{
    let elements = items(tree, list);
    let mut out: Vec<Predicate> = Vec::new();
    let mut k: usize = 0;
    assert(predicate_views(out@) =~= Seq::empty());
    while k < elements.len()
        invariant
            tree.wf(),
            k <= elements@.len(),
            forall|k: int|
                0 <= k < elements@.len() ==> (#[trigger] elements@[k]) < tree.nodes@.len(),
            predicate_views(out@) == predicates_among(tree.nodes@, src@, elements@, k as int),
        decreases elements.len() - k,
    {
        let ghost before = predicate_views(out@);
        match predicate(tree, elements[k], src) {
            Some(found) => {
                out.push(found);
                assert(predicate_views(out@) =~= before.push(found@));
            },
            None => {},
        }
        k = k + 1;
    }
    out
}

/// What each of a run of texts holds.
pub open spec fn name_views(names: Seq<String>) -> Seq<Seq<char>> {
    names.map_values(|name: String| name@)
}

fn collect_names(tree: &SyntaxTree, list: usize, src: &str) -> (r: Vec<String>)
    requires
        tree.wf(),
        list < tree.nodes@.len(),
    ensures
        ({
            let elements = elements_of(tree.nodes@, list as int);
            name_views(r@) == names_among(tree.nodes@, src@, elements, elements.len() as int)
        }),
{
    let elements = items(tree, list);
    let mut out: Vec<String> = Vec::new();
    let mut k: usize = 0;
    assert(name_views(out@) =~= Seq::empty());
    while k < elements.len()
        invariant
            tree.wf(),
            k <= elements@.len(),
            forall|k: int|
                0 <= k < elements@.len() ==> (#[trigger] elements@[k]) < tree.nodes@.len(),
            name_views(out@) == names_among(tree.nodes@, src@, elements@, k as int),
        decreases elements.len() - k,
    {
        let ghost before = name_views(out@);
        if tree.is(elements[k], "scheme_symbol") {
            let name = text(tree, elements[k], src).to_string();
            out.push(name);
            assert(name_views(out@) =~= before.push(name@));
        }
        k = k + 1;
    }
    out
}

fn build_params(names: &Vec<String>, predicates: &Vec<Predicate>) -> (r: Vec<Param>)
    ensures
        param_views(r@) == parameters_of(name_views(names@), predicate_views(predicates@)),
{
    let ghost written = name_views(names@);
    let ghost checked = predicate_views(predicates@);
    // Definitions once had to declare `parser` and `location` ahead of their real arguments. The
    // predicate list has only ever described the real ones, so the two are aligned from the right.
    let skip: usize = if names.len() > predicates.len() {
        names.len() - predicates.len()
    } else {
        0
    };
    let mut params: Vec<Param> = Vec::new();
    let mut i: usize = 0;
    assert(param_views(params@) =~= Seq::empty());
    while i < predicates.len()
        invariant
            i <= predicates@.len(),
            written == name_views(names@),
            checked == predicate_views(predicates@),
            skip == surplus(written.len(), checked.len()),
            param_views(params@) == parameters_of(written, checked).subrange(0, i as int),
        decreases predicates.len() - i,
    {
        let name = if i < names.len() && skip < names.len() - i {
            assert(written[skip + i] == names@[skip + i]@);
            names[skip + i].clone()
        } else {
            let mut name = "arg".to_string();
            push_decimal(&mut name, i as u64 + 1);
            name
        };
        assert(checked[i as int] == predicates@[i as int]@);
        let param = Param {
            name,
            kind: arg_kind(predicates[i].name.as_str()),
            optional: predicates[i].optional,
        };
        proof {
            lemma_param_views_push(params@, param);
            let all = parameters_of(written, checked);
            assert(param_view(param) == all[i as int]);
            assert(all.subrange(0, i + 1) =~= all.subrange(0, i as int).push(all[i as int]));
        }
        params.push(param);
        i = i + 1;
    }
    assert(parameters_of(written, checked).subrange(0, i as int) =~= parameters_of(
        written,
        checked,
    ));
    params
}

/// Builds a command from the elements of a `(define-…-function …)` list. `None` when the list
/// doesn't have the argument and predicate lists a definition needs.
pub fn function(tree: &SyntaxTree, elements: &Vec<usize>, name: &str, src: &str) -> (r: Option<
    Command,
>)
    requires
        tree.wf(),
        forall|k: int| 0 <= k < elements@.len() ==> (#[trigger] elements@[k]) < tree.nodes@.len(),
    ensures
        match r {
            Some(command) => function_of(tree.nodes@, src@, elements@, name@) is Some
                && is_function(command, function_of(tree.nodes@, src@, elements@, name@)->0),
            None => function_of(tree.nodes@, src@, elements@, name@) is None,
        },
{
    if elements.len() == 0 {
        return None;
    }
    let first = match next_list(tree, elements, 1) {
        Some(k) => k,
        None => {
            return None;
        },
    };
    let second = match next_list(tree, elements, first + 1) {
        Some(k) => k,
        None => {
            return None;
        },
    };
    let names = collect_names(tree, elements[first], src);
    let predicates = collect_predicates(tree, elements[second], src);
    let params = build_params(&names, &predicates);
    let documentation = docstring(tree, elements, second + 1, src);
    Some(
        Command {
            name: name.to_string(),
            params,
            behaviour: Behaviour::Scheme,
            documentation,
            completions: Vec::new(),
            definition: None,
            redefines: None,
        },
    )
}

/// The first list among elements, from `from` on.
fn next_list(tree: &SyntaxTree, elements: &Vec<usize>, from: usize) -> (r: Option<usize>)
    requires
        forall|k: int| 0 <= k < elements@.len() ==> (#[trigger] elements@[k]) < tree.nodes@.len(),
    ensures
        r == first_from(
            from as int,
            elements@.len() as int,
            of_kind(tree.nodes@, elements@, "scheme_list"@),
        ),
        r is Some ==> r->0 < elements@.len(),
{
    let ghost n = elements@.len() as int;
    let ghost fits = of_kind(tree.nodes@, elements@, "scheme_list"@);
    let mut k: usize = from;
    while k < elements.len()
        invariant
            forall|k: int|
                0 <= k < elements@.len() ==> (#[trigger] elements@[k]) < tree.nodes@.len(),
            n == elements@.len(),
            fits == of_kind(tree.nodes@, elements@, "scheme_list"@),
            first_from(from as int, n, fits) == first_from(k as int, n, fits),
        decreases elements.len() - k,
    {
        if tree.is(elements[k], "scheme_list") {
            return Some(k);
        }
        k = k + 1;
    }
    None
}

/// The word a Scheme block is assigned to, if it is the value of an assignment.
pub open spec fn assigned_to(nodes: Seq<Node>, src: Seq<char>, i: int) -> Option<usize> {
    match sibling_before(nodes, i) {
        Some(equals) => if source_of(nodes, src, equals as int) == "="@ {
            match sibling_before(nodes, equals as int) {
                Some(lhs) => if nodes[lhs as int].kind@ == "assignment_lhs"@ {
                    child_of(nodes, lhs as int, "symbol"@)
                } else {
                    None
                },
                None => None,
            }
        } else {
            None
        },
        None => None,
    }
}

/// The `symbol` node an `embedded_scheme` node is assigned to: `myFunc` in `myFunc = #( … )`.
pub fn assigned_name(tree: &SyntaxTree, i: usize, src: &str) -> (r: Option<usize>)
    requires
        tree.wf(),
        i < tree.nodes@.len(),
    ensures
        r == assigned_to(tree.nodes@, src@, i as int),
        r is Some ==> r->0 < tree.nodes@.len(),
{
    match tree.prev_sibling(i) {
        Some(equals) => {
            if !same(text(tree, equals, src), "=") {
                return None;
            }
            match tree.prev_sibling(equals) {
                Some(lhs) => if tree.is(lhs, "assignment_lhs") {
                    child_of_kind(tree, lhs, "symbol")
                } else {
                    None
                },
                None => None,
            }
        },
        None => None,
    }
}

/// A name that Scheme binds, where, and the function it is bound to if it is one.
pub struct BindingView {
    pub name: Seq<char>,
    pub span: Span,
    pub value: Option<Span>,
    pub function: Option<FunctionView>,
}

/// The binding of the name at node `i`.
pub open spec fn bound_at(nodes: Seq<Node>, src: Seq<char>, i: int, function: Option<FunctionView>) -> BindingView {
    BindingView { name: source_of(nodes, src, i), span: span_of(nodes, i), value: None, function }
}

/// The function that a binding's value defines, if the value is a function form.
pub open spec fn value_function(nodes: Seq<Node>, src: Seq<char>, list: int, name: Seq<char>) -> Option<
    FunctionView,
> {
    let elements = elements_of(nodes, list);
    if elements.len() > 0 && nodes[elements[0] as int].kind@ == "scheme_symbol"@ && function_form(
        source_of(nodes, src, elements[0] as int),
    ) {
        function_of(nodes, src, elements, name)
    } else {
        None
    }
}

/// What a Scheme list binds, if it is a definition: the name it is assigned to, where it is a
/// function form, or the name it gives itself, where it is a binding form.
pub open spec fn definition_in(nodes: Seq<Node>, src: Seq<char>, list: int, assigned: Option<usize>) -> Option<
    BindingView,
> {
    let elements = elements_of(nodes, list);
    if elements.len() == 0 || nodes[elements[0] as int].kind@ != "scheme_symbol"@ {
        None
    } else {
        let head = source_of(nodes, src, elements[0] as int);
        if function_form(head) {
            match assigned {
                Some(name) => match function_of(
                    nodes,
                    src,
                    elements,
                    source_of(nodes, src, name as int),
                ) {
                    Some(function) => Some(bound_at(nodes, src, name as int, Some(function))),
                    None => None,
                },
                None => None,
            }
        } else if binding_form(head) && elements.len() >= 2 && nodes[elements[1] as int].kind@
            == "scheme_symbol"@ {
            let name = elements[1] as int;
            let function = if elements.len() >= 3 && nodes[elements[2] as int].kind@
                == "scheme_list"@ {
                value_function(nodes, src, elements[2] as int, source_of(nodes, src, name))
            } else {
                None
            };
            Some(bound_at(nodes, src, name, function))
        } else {
            None
        }
    }
}

/// What an embedded Scheme block binds.
pub open spec fn embedded_binding(nodes: Seq<Node>, src: Seq<char>, i: int) -> Option<BindingView> {
    match child_of(nodes, i, "embedded_scheme_text"@) {
        Some(body) => match child_of(nodes, body as int, "scheme_list"@) {
            Some(list) => definition_in(nodes, src, list as int, assigned_to(nodes, src, i)),
            None => None,
        },
        None => None,
    }
}

/// What the outermost Scheme blocks among the nodes from `at` on bind, in source order.
pub open spec fn scheme_bindings(nodes: Seq<Node>, src: Seq<char>, at: int) -> Seq<BindingView>
    decreases nodes.len() - at,
{
    if at < 0 || at >= nodes.len() {
        Seq::empty()
    } else if nodes[at].kind@ != "embedded_scheme"@ {
        scheme_bindings(nodes, src, at + 1)
    } else if at < nodes[at].past <= nodes.len() {
        let rest = scheme_bindings(nodes, src, nodes[at].past as int);
        match embedded_binding(nodes, src, at) {
            Some(binding) => seq![binding] + rest,
            None => rest,
        }
    } else {
        Seq::empty()
    }
}

/// Whether a binding is the one described.
pub open spec fn is_binding(binding: Binding, view: BindingView) -> bool {
    &&& binding.name@ == view.name
    &&& binding.span == view.span
    &&& binding.value == view.value
    &&& match binding.command {
        Some(command) => view.function is Some && is_function(command, view.function->0),
        None => view.function is None,
    }
}

/// Whether bindings are those described, in order.
pub open spec fn are_bindings(bindings: Seq<Binding>, views: Seq<BindingView>) -> bool {
    bindings.len() == views.len() && forall|k: int|
        0 <= k < bindings.len() ==> is_binding(#[trigger] bindings[k], views[k])
}

/// The command a binding's value defines, if that value is a function form rather than an ordinary
/// expression.
pub fn defined_function(tree: &SyntaxTree, list: usize, name: &str, src: &str) -> (r: Option<
    Command,
>)
    requires
        tree.wf(),
        list < tree.nodes@.len(),
    ensures
        match r {
            Some(command) => value_function(tree.nodes@, src@, list as int, name@) is Some
                && is_function(command, value_function(tree.nodes@, src@, list as int, name@)->0),
            None => value_function(tree.nodes@, src@, list as int, name@) is None,
        },
{
    let elements = items(tree, list);
    if elements.len() == 0 || !tree.is(elements[0], "scheme_symbol") {
        return None;
    }
    if !is_function_form(text(tree, elements[0], src)) {
        return None;
    }
    function(tree, &elements, name, src)
}

/// The [`Binding`] a name node makes.
fn binding(tree: &SyntaxTree, i: usize, src: &str, command: Option<Command>) -> (r: Binding)
    requires
        i < tree.nodes@.len(),
    ensures
        r.name@ == source_of(tree.nodes@, src@, i as int),
        r.span == span_of(tree.nodes@, i as int),
        r.value is None,
        r.command == command,
{
    Binding {
        name: text(tree, i, src).to_string(),
        span: tree.span(i),
        value: None,
        command,
    }
}

/// Reads a Scheme list that may be a definition, named either by the assignment it is the value of
/// or by the binding form it sits in.
pub fn read_definition(tree: &SyntaxTree, list: usize, assigned: Option<usize>, src: &str) -> (r:
    Option<Binding>)
    requires
        tree.wf(),
        list < tree.nodes@.len(),
        assigned is Some ==> assigned->0 < tree.nodes@.len(),
    ensures
        match r {
            Some(found) => definition_in(tree.nodes@, src@, list as int, assigned) is Some
                && is_binding(found, definition_in(tree.nodes@, src@, list as int, assigned)->0),
            None => definition_in(tree.nodes@, src@, list as int, assigned) is None,
        },
{
    let elements = items(tree, list);
    if elements.len() == 0 || !tree.is(elements[0], "scheme_symbol") {
        return None;
    }
    let head = text(tree, elements[0], src);
    if is_function_form(head) {
        // Only a name makes a function reachable as `\foo`.
        return match assigned {
            Some(name) => match function(tree, &elements, text(tree, name, src), src) {
                Some(command) => Some(binding(tree, name, src, Some(command))),
                None => None,
            },
            None => None,
        };
    }
    if is_binding_form(head) && elements.len() >= 2 && tree.is(elements[1], "scheme_symbol") {
        // The binding defines its name whatever its value. Whether it also has a signature depends
        // on the value being a function form.
        let name = elements[1];
        let command = if elements.len() >= 3 && tree.is(elements[2], "scheme_list") {
            defined_function(tree, elements[2], text(tree, name, src), src)
        } else {
            None
        };
        return Some(binding(tree, name, src, command));
    }
    None
}

/// Reads one `#( … )` block for a definition, naming it from the assignment it is the value of
/// where there is one.
pub fn read_embedded(tree: &SyntaxTree, i: usize, src: &str) -> (r: Option<Binding>)
    requires
        tree.wf(),
        i < tree.nodes@.len(),
    ensures
        match r {
            Some(found) => embedded_binding(tree.nodes@, src@, i as int) is Some && is_binding(
                found,
                embedded_binding(tree.nodes@, src@, i as int)->0,
            ),
            None => embedded_binding(tree.nodes@, src@, i as int) is None,
        },
{
    match child_of_kind(tree, i, "embedded_scheme_text") {
        Some(body) => match child_of_kind(tree, body, "scheme_list") {
            Some(list) => read_definition(tree, list, assigned_name(tree, i, src), src),
            None => None,
        },
        None => None,
    }
}

/// Reads every name the tree's embedded Scheme binds, in source order. A block inside another is
/// left alone.
pub fn read(tree: &SyntaxTree, src: &str) -> (r: Vec<Binding>)
    requires
        tree.wf(),
    ensures
        are_bindings(r@, scheme_bindings(tree.nodes@, src@, 0)),
{
    let mut out: Vec<Binding> = Vec::new();
    let mut at: usize = 0;
    let ghost mut done: Seq<BindingView> = Seq::empty();
    let ghost all = scheme_bindings(tree.nodes@, src@, 0);
    assert(done + all =~= all);
    while at < tree.nodes.len()
        invariant
            tree.wf(),
            at <= tree.nodes@.len(),
            all == scheme_bindings(tree.nodes@, src@, 0),
            done + scheme_bindings(tree.nodes@, src@, at as int) == all,
            are_bindings(out@, done),
        decreases tree.nodes.len() - at,
    {
        if !tree.is(at, "embedded_scheme") {
            at = at + 1;
        } else {
            let past = tree.past(at);
            let ghost rest = scheme_bindings(tree.nodes@, src@, past as int);
            match read_embedded(tree, at, src) {
                Some(found) => {
                    out.push(found);
                    proof {
                        let view = embedded_binding(tree.nodes@, src@, at as int)->0;
                        assert(done + (seq![view] + rest) =~= done.push(view) + rest);
                        done = done.push(view);
                    }
                },
                None => {},
            }
            at = past;
        }
    }
    assert(done + Seq::<BindingView>::empty() =~= done);
    out
}

} // verus!
