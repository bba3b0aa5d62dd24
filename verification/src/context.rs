//! Context types and context instances: the two namespaces beside commands that a file defines
//! names in.
//!
//! `\layout { \context { \name Staff … } }` teaches LilyPond a context type; a block without a
//! `\name` only modifies one. `\new Voice = "vocals" { … }` and `\context Voice = "vocals" { … }`
//! create a named instance. `\change` and `\lyricsto` refer to instances and create none.
use vstd::prelude::*;
use crate::command::reader::{strip_backslash, unescaped_word};
use crate::command::scheme::{source_of, text};
use crate::command::texinfo::{markdown_of, texinfo_to_markdown};
use crate::finding::{first_from, last_below};
use crate::line_struct::Span;
use crate::syntax::{Node, SyntaxTree, children_of, parent_of, span_of};
use crate::text::same;

verus! {

/// One context type declared by a `\context { … }` block.
#[derive(Debug)]
pub struct ContextType {
    /// From `\name`.
    pub name: String,
    /// Every `\alias` the block carries, in source order.
    pub aliases: Vec<String>,
    /// From `\description`, as Markdown.
    pub description: Option<String>,
    /// The extent of the name as written after `\name`, without its quotes.
    pub name_span: Span,
    /// The extent of the whole `\context { … }` block, keyword and all.
    pub block_span: Span,
}

/// One context instance name created by `\new` or `\context`: the `"vocals"` of `\new Voice =
/// "vocals" { … }`.
#[derive(Debug)]
pub struct ContextInstance {
    pub name: String,
    /// The context type it was created as, where one was written.
    pub created_as: Option<String>,
    /// The name as written, without its quotes.
    pub span: Span,
}

/// What a [`ContextType`] says.
pub struct TypeView {
    pub name: Seq<char>,
    pub aliases: Seq<Seq<char>>,
    pub description: Option<Seq<char>>,
    pub name_span: Span,
    pub block_span: Span,
}

/// What a [`ContextInstance`] says.
pub struct InstanceView {
    pub name: Seq<char>,
    pub created_as: Option<Seq<char>>,
    pub span: Span,
}

/// The text in an option.
pub open spec fn text_in(text: Option<String>) -> Option<Seq<char>> {
    match text {
        Some(text) => Some(text@),
        None => None,
    }
}

/// The texts in a list.
pub open spec fn texts_in(texts: Seq<String>) -> Seq<Seq<char>> {
    texts.map_values(|text: String| text@)
}

impl View for ContextType {
    type V = TypeView;

    open spec fn view(&self) -> TypeView {
        TypeView {
            name: self.name@,
            aliases: texts_in(self.aliases@),
            description: text_in(self.description),
            name_span: self.name_span,
            block_span: self.block_span,
        }
    }
}

impl View for ContextInstance {
    type V = InstanceView;

    open spec fn view(&self) -> InstanceView {
        InstanceView { name: self.name@, created_as: text_in(self.created_as), span: self.span }
    }
}

pub open spec fn type_views(types: Seq<ContextType>) -> Seq<TypeView> {
    types.map_values(|found: ContextType| found@)
}

pub open spec fn instance_views(instances: Seq<ContextInstance>) -> Seq<InstanceView> {
    instances.map_values(|found: ContextInstance| found@)
}

/// The named ones among the first `n` of a row of nodes.
pub open spec fn named_among(nodes: Seq<Node>, row: Seq<usize>, n: int) -> Seq<usize>
    decreases n,
{
    if n <= 0 {
        Seq::empty()
    } else if nodes[row[n - 1] as int].named {
        named_among(nodes, row, n - 1).push(row[n - 1])
    } else {
        named_among(nodes, row, n - 1)
    }
}

/// The named children of node `i`.
pub open spec fn named_of(nodes: Seq<Node>, i: int) -> Seq<usize> {
    let row = children_of(nodes, i);
    named_among(nodes, row, row.len() as int)
}

pub fn named_children(tree: &SyntaxTree, i: usize) -> (r: Vec<usize>)
    requires
        tree.wf(),
        i < tree.nodes@.len(),
    ensures
        r@ == named_of(tree.nodes@, i as int),
        forall|k: int| 0 <= k < r@.len() ==> i < (#[trigger] r@[k]) < tree.nodes@.len(),
{
    let row = tree.children(i);
    let mut out: Vec<usize> = Vec::new();
    let mut k: usize = 0;
    while k < row.len()
        invariant
            k <= row@.len(),
            forall|k: int| 0 <= k < row@.len() ==> i < (#[trigger] row@[k]) < tree.nodes@.len(),
            forall|k: int| 0 <= k < out@.len() ==> i < (#[trigger] out@[k]) < tree.nodes@.len(),
            out@ == named_among(tree.nodes@, row@, k as int),
        decreases row.len() - k,
    {
        if tree.nodes[row[k]].named {
            out.push(row[k]);
        }
        k = k + 1;
    }
    out
}

/// What one `\x` escape stands for.
pub open spec fn unescaped(escape: Seq<char>) -> Seq<char> {
    let bare = unescaped_word(escape);
    if bare == "n"@ {
        "\n"@
    } else if bare == "t"@ {
        "\t"@
    } else if bare == "r"@ {
        "\r"@
    } else {
        bare
    }
}

pub fn unescape(escape: &str) -> (r: String)
    ensures
        r@ == unescaped(escape@),
{
    let bare = strip_backslash(escape);
    if same(bare.as_str(), "n") {
        "\n".to_string()
    } else if same(bare.as_str(), "t") {
        "\t".to_string()
    } else if same(bare.as_str(), "r") {
        "\r".to_string()
    } else {
        bare
    }
}

/// What one part of a string stands for.
pub open spec fn string_part(nodes: Seq<Node>, src: Seq<char>, i: int) -> Seq<char> {
    if nodes[i].kind@ == "string_fragment"@ {
        source_of(nodes, src, i)
    } else if nodes[i].kind@ == "escape_sequence"@ {
        unescaped(source_of(nodes, src, i))
    } else {
        Seq::empty()
    }
}

/// What the first `n` parts of a string stand for.
pub open spec fn string_parts(nodes: Seq<Node>, src: Seq<char>, row: Seq<usize>, n: int) -> Seq<char>
    decreases n,
{
    if n <= 0 {
        Seq::empty()
    } else {
        string_parts(nodes, src, row, n - 1) + string_part(nodes, src, row[n - 1] as int)
    }
}

/// The text a string node stands for, with its escapes decoded.
pub open spec fn string_text(nodes: Seq<Node>, src: Seq<char>, i: int) -> Seq<char> {
    let row = named_of(nodes, i);
    string_parts(nodes, src, row, row.len() as int)
}

/// The text a `string` node stands for, with its escapes decoded.
pub fn string_value(tree: &SyntaxTree, string: usize, src: &str) -> (r: String)
    requires
        tree.wf(),
        string < tree.nodes@.len(),
    ensures
        r@ == string_text(tree.nodes@, src@, string as int),
{
    let row = named_children(tree, string);
    let mut out = String::new();
    let mut k: usize = 0;
    while k < row.len()
        invariant
            k <= row@.len(),
            forall|k: int| 0 <= k < row@.len() ==> (#[trigger] row@[k]) < tree.nodes@.len(),
            out@ == string_parts(tree.nodes@, src@, row@, k as int),
        decreases row.len() - k,
    {
        let ghost before = out@;
        if tree.is(row[k], "string_fragment") {
            out.append(text(tree, row[k], src));
        } else if tree.is(row[k], "escape_sequence") {
            let meant = unescape(text(tree, row[k], src));
            out.append(meant.as_str());
        }
        assert(out@ =~= before + string_part(tree.nodes@, src@, row@[k as int] as int));
        k = k + 1;
    }
    out
}

/// The span between a string node's quotes.
pub open spec fn contents_span(nodes: Seq<Node>, i: int) -> Option<Span> {
    let row = named_of(nodes, i);
    if row.len() == 0 {
        None
    } else {
        Some(Span { start: nodes[row[0] as int].start, end: nodes[row.last() as int].end })
    }
}

/// The span between a `string` node's quotes: its first named child through its last. The quotes
/// themselves are not named.
pub fn string_contents_span(tree: &SyntaxTree, string: usize) -> (r: Option<Span>)
    requires
        tree.wf(),
        string < tree.nodes@.len(),
    ensures
        r == contents_span(tree.nodes@, string as int),
{
    let row = named_children(tree, string);
    if row.len() == 0 {
        None
    } else {
        Some(Span::new(tree.nodes[row[0]].start, tree.nodes[row[row.len() - 1]].end))
    }
}

/// The name a node stands for and where it is written.
pub open spec fn name_at(nodes: Seq<Node>, src: Seq<char>, i: int) -> Option<(Seq<char>, Span)> {
    if nodes[i].kind@ == "symbol"@ {
        Some((source_of(nodes, src, i), span_of(nodes, i)))
    } else if nodes[i].kind@ == "string"@ {
        match contents_span(nodes, i) {
            Some(span) => Some((string_text(nodes, src, i), span)),
            None => None,
        }
    } else {
        None
    }
}

/// The name a `\name` or `\alias` value stands for, and the span of the name as written: the bare
/// word itself, or a quoted string's contents. `None` for anything else.
pub fn name_value(tree: &SyntaxTree, i: usize, src: &str) -> (r: Option<(String, Span)>)
    requires
        tree.wf(),
        i < tree.nodes@.len(),
    ensures
        match r {
            Some((name, span)) => name_at(tree.nodes@, src@, i as int) == Some((name@, span)),
            None => name_at(tree.nodes@, src@, i as int) is None,
        },
{
    if tree.is(i, "symbol") {
        Some((text(tree, i, src).to_string(), tree.span(i)))
    } else if tree.is(i, "string") {
        match string_contents_span(tree, i) {
            Some(span) => Some((string_value(tree, i, src), span)),
            None => None,
        }
    } else {
        None
    }
}

/// Whether the `i`-th of a row of nodes is the directive `word`.
pub open spec fn directive(nodes: Seq<Node>, src: Seq<char>, row: Seq<usize>, i: int, word: Seq<char>) -> bool {
    nodes[row[i] as int].kind@ == "escaped_word"@ && source_of(nodes, src, row[i] as int) == word
}

/// The value of the `i`-th of a row of nodes: the next one, unless that is a directive itself.
pub open spec fn value_of(nodes: Seq<Node>, row: Seq<usize>, i: int) -> Option<usize> {
    if i + 1 < row.len() && nodes[row[i + 1] as int].kind@ != "escaped_word"@ {
        Some(row[i + 1])
    } else {
        None
    }
}

/// The name that the value of the `i`-th of a row of nodes stands for.
pub open spec fn value_name(nodes: Seq<Node>, src: Seq<char>, row: Seq<usize>, i: int) -> Option<
    (Seq<char>, Span),
> {
    match value_of(nodes, row, i) {
        Some(value) => name_at(nodes, src, value as int),
        None => None,
    }
}

/// The last `\name` among the first `n` nodes of a block.
pub open spec fn block_name(nodes: Seq<Node>, src: Seq<char>, row: Seq<usize>, n: int) -> Option<
    (Seq<char>, Span),
>
    decreases n,
{
    if n <= 0 {
        None
    } else if directive(nodes, src, row, n - 1, "\\name"@) && value_name(nodes, src, row, n - 1)
        is Some {
        value_name(nodes, src, row, n - 1)
    } else {
        block_name(nodes, src, row, n - 1)
    }
}

/// Every `\alias` among the first `n` nodes of a block.
pub open spec fn block_aliases(nodes: Seq<Node>, src: Seq<char>, row: Seq<usize>, n: int) -> Seq<
    Seq<char>,
>
    decreases n,
{
    if n <= 0 {
        Seq::empty()
    } else if directive(nodes, src, row, n - 1, "\\alias"@) && value_name(nodes, src, row, n - 1)
        is Some {
        block_aliases(nodes, src, row, n - 1).push((value_name(nodes, src, row, n - 1)->0).0)
    } else {
        block_aliases(nodes, src, row, n - 1)
    }
}

/// The last `\description` among the first `n` nodes of a block, as Markdown.
pub open spec fn block_description(nodes: Seq<Node>, src: Seq<char>, row: Seq<usize>, n: int) -> Option<
    Seq<char>,
>
    decreases n,
{
    if n <= 0 {
        None
    } else {
        let value = value_of(nodes, row, n - 1);
        if directive(nodes, src, row, n - 1, "\\description"@) && value is Some
            && nodes[value->0 as int].kind@ == "string"@ {
            Some(markdown_of(string_text(nodes, src, value->0 as int)))
        } else {
            block_description(nodes, src, row, n - 1)
        }
    }
}

/// The context type that a block declares; none where it has no name.
pub open spec fn declared(nodes: Seq<Node>, src: Seq<char>, keyword: int, block: int) -> Option<
    TypeView,
> {
    let row = named_of(nodes, block);
    let n = row.len() as int;
    match block_name(nodes, src, row, n) {
        Some((name, name_span)) => Some(
            TypeView {
                name,
                aliases: block_aliases(nodes, src, row, n),
                description: block_description(nodes, src, row, n),
                name_span,
                block_span: Span { start: nodes[keyword].start, end: nodes[block].end },
            },
        ),
        None => None,
    }
}

/// Reads one `\context { … }` block, given its keyword and the block itself. `None` where the block
/// has no `\name`: it modifies an existing type rather than declaring one.
///
/// Not every directive takes a value, so one claims the node that follows it only where that is no
/// directive itself.
pub fn read_block(tree: &SyntaxTree, keyword: usize, block: usize, src: &str) -> (r: Option<
    ContextType,
>)
    requires
        tree.wf(),
        keyword < tree.nodes@.len(),
        block < tree.nodes@.len(),
    ensures
        match r {
            Some(found) => declared(tree.nodes@, src@, keyword as int, block as int) == Some(
                found@,
            ),
            None => declared(tree.nodes@, src@, keyword as int, block as int) is None,
        },
{
    let row = named_children(tree, block);
    let mut name: Option<(String, Span)> = None;
    let mut aliases: Vec<String> = Vec::new();
    let mut description: Option<String> = None;
    assert(texts_in(aliases@) =~= Seq::empty());
    let mut k: usize = 0;
    while k < row.len()
        invariant
            tree.wf(),
            k <= row@.len(),
            forall|k: int| 0 <= k < row@.len() ==> (#[trigger] row@[k]) < tree.nodes@.len(),
            match name {
                Some((name, span)) => block_name(tree.nodes@, src@, row@, k as int) == Some(
                    (name@, span),
                ),
                None => block_name(tree.nodes@, src@, row@, k as int) is None,
            },
            texts_in(aliases@) == block_aliases(tree.nodes@, src@, row@, k as int),
            text_in(description) == block_description(tree.nodes@, src@, row@, k as int),
        decreases row.len() - k,
    {
        if tree.is(row[k], "escaped_word") {
            let value = if k + 1 < row.len() && !tree.is(row[k + 1], "escaped_word") {
                Some(row[k + 1])
            } else {
                None
            };
            assert(value == value_of(tree.nodes@, row@, k as int));
            let word = text(tree, row[k], src);
            proof {
                reveal_strlit("\\name");
                reveal_strlit("\\alias");
                reveal_strlit("\\description");
                assert("\\name"@[1] != "\\alias"@[1]);
                assert("\\name"@[1] != "\\description"@[1]);
                assert("\\alias"@[1] != "\\description"@[1]);
            }
            match value {
                Some(value) => {
                    if same(word, "\\name") {
                        match name_value(tree, value, src) {
                            Some(found) => {
                                name = Some(found);
                            },
                            None => {},
                        }
                    } else if same(word, "\\alias") {
                        match name_value(tree, value, src) {
                            Some(found) => {
                                let ghost before = aliases@;
                                aliases.push(found.0);
                                assert(texts_in(aliases@) =~= texts_in(before).push(found.0@));
                            },
                            None => {},
                        }
                    } else if same(word, "\\description") && tree.is(value, "string") {
                        let raw = string_value(tree, value, src);
                        description = Some(texinfo_to_markdown(raw.as_str()));
                    }
                },
                None => {},
            }
        }
        k = k + 1;
    }
    match name {
        Some((name, name_span)) => Some(
            ContextType {
                name,
                aliases,
                description,
                name_span,
                block_span: Span::new(tree.nodes[keyword].start, tree.nodes[block].end),
            },
        ),
        None => None,
    }
}

/// Which of a row of nodes are named and come before node `i`.
pub open spec fn named_before(nodes: Seq<Node>, row: Seq<usize>, i: int) -> spec_fn(int) -> bool {
    |k: int| row[k] < i && nodes[row[k] as int].named
}

/// The named node side by side with node `i`, just before it.
pub open spec fn named_sibling_before(nodes: Seq<Node>, i: int) -> Option<usize> {
    match parent_of(nodes, i) {
        Some(parent) => {
            let row = children_of(nodes, parent as int);
            match last_below(row.len() as int, named_before(nodes, row, i)) {
                Some(k) => Some(row[k as int]),
                None => None,
            }
        },
        None => None,
    }
}

/// The named node side by side with node `i`, just before it.
pub fn prev_named_sibling(tree: &SyntaxTree, i: usize) -> (r: Option<usize>)
    requires
        tree.wf(),
        i < tree.nodes@.len(),
    ensures
        r == named_sibling_before(tree.nodes@, i as int),
        r is Some ==> r->0 < i,
{
    match tree.parent(i) {
        Some(parent) => {
            let row = tree.children(parent);
            let ghost fits = named_before(tree.nodes@, row@, i as int);
            let mut k: usize = row.len();
            while k > 0
                invariant
                    k <= row@.len(),
                    forall|k: int|
                        0 <= k < row@.len() ==> (#[trigger] row@[k]) < tree.nodes@.len(),
                    fits == named_before(tree.nodes@, row@, i as int),
                    last_below(row@.len() as int, fits) == last_below(k as int, fits),
                    parent_of(tree.nodes@, i as int) == Some(parent),
                    row@ == children_of(tree.nodes@, parent as int),
                decreases k,
            {
                if row[k - 1] < i && tree.nodes[row[k - 1]].named {
                    return Some(row[k - 1]);
                }
                k = k - 1;
            }
            None
        },
        None => None,
    }
}

/// The keyword of the `\context { … }` block that node `i` is, if it is one: a `\context` right
/// before it.
pub open spec fn context_keyword(nodes: Seq<Node>, src: Seq<char>, i: int) -> Option<usize> {
    match named_sibling_before(nodes, i) {
        Some(keyword) => if nodes[i].kind@ == "expression_block"@ && !nodes[nodes[i].parent as int].error
            && nodes[keyword as int].kind@ == "escaped_word"@ && source_of(
            nodes,
            src,
            keyword as int,
        ) == "\\context"@ {
            Some(keyword)
        } else {
            None
        },
        None => None,
    }
}

/// The context type that node `i` declares.
pub open spec fn declared_at(nodes: Seq<Node>, src: Seq<char>, i: int) -> Option<TypeView> {
    match context_keyword(nodes, src, i) {
        Some(keyword) => declared(nodes, src, keyword as int, i),
        None => None,
    }
}

/// The context types that the first `n` nodes declare, in source order.
pub open spec fn declared_types(nodes: Seq<Node>, src: Seq<char>, n: int) -> Seq<TypeView>
    decreases n,
{
    if n <= 0 {
        Seq::empty()
    } else {
        match declared_at(nodes, src, n - 1) {
            Some(found) => declared_types(nodes, src, n - 1).push(found),
            None => declared_types(nodes, src, n - 1),
        }
    }
}

/// Reads every context type the tree declares, in source order.
pub fn read(tree: &SyntaxTree, src: &str) -> (r: Vec<ContextType>)
    requires
        tree.wf(),
    ensures
        type_views(r@) == declared_types(tree.nodes@, src@, tree.nodes@.len() as int),
{
    let mut out: Vec<ContextType> = Vec::new();
    assert(type_views(out@) =~= Seq::empty());
    let mut i: usize = 0;
    while i < tree.nodes.len()
        invariant
            tree.wf(),
            i <= tree.nodes@.len(),
            type_views(out@) == declared_types(tree.nodes@, src@, i as int),
        decreases tree.nodes.len() - i,
    {
        let ghost before = type_views(out@);
        if tree.is(i, "expression_block") {
            match prev_named_sibling(tree, i) {
                Some(keyword) => {
                    proof {
                        tree.lemma_wf();
                        assert(0 < i ==> tree.nodes@[i as int].parent < i);
                    }
                    if !tree.nodes[tree.nodes[i].parent].error && tree.is(keyword, "escaped_word")
                        && same(text(tree, keyword, src), "\\context") {
                        match read_block(tree, keyword, i, src) {
                            Some(found) => {
                                out.push(found);
                                assert(type_views(out@) =~= before.push(found@));
                            },
                            None => {},
                        }
                    }
                },
                None => {},
            }
        }
        i = i + 1;
    }
    out
}

/// Which of a row of nodes are an equals sign.
pub open spec fn equals_sign(nodes: Seq<Node>, src: Seq<char>, row: Seq<usize>) -> spec_fn(int) -> bool {
    |k: int|
        nodes[row[k] as int].kind@ == "punctuation"@ && source_of(nodes, src, row[k] as int)
            == "="@
}

/// The type that a named context is created as.
pub open spec fn created_as(nodes: Seq<Node>, src: Seq<char>, row: Seq<usize>) -> Option<Seq<char>> {
    if row.len() > 1 && nodes[row[1] as int].kind@ == "symbol"@ {
        Some(source_of(nodes, src, row[1] as int))
    } else {
        None
    }
}

/// The instance that a named context creates; none where it is given no name.
pub open spec fn instance_at(nodes: Seq<Node>, src: Seq<char>, i: int) -> Option<InstanceView> {
    let row = named_of(nodes, i);
    match first_from(0, row.len() as int, equals_sign(nodes, src, row)) {
        Some(eq) => if eq + 1 < row.len() {
            match name_at(nodes, src, row[eq + 1] as int) {
                Some((name, span)) => Some(
                    InstanceView { name, created_as: created_as(nodes, src, row), span },
                ),
                None => None,
            }
        } else {
            None
        },
        None => None,
    }
}

/// Reads one `named_context` node for the instance it creates. `None` where the call names none:
/// `\new Voice { c }` creates a context but never names it.
pub fn read_named_context(tree: &SyntaxTree, i: usize, src: &str) -> (r: Option<ContextInstance>)
    requires
        tree.wf(),
        i < tree.nodes@.len(),
    ensures
        match r {
            Some(found) => instance_at(tree.nodes@, src@, i as int) == Some(found@),
            None => instance_at(tree.nodes@, src@, i as int) is None,
        },
{
    let row = named_children(tree, i);
    let ghost fits = equals_sign(tree.nodes@, src@, row@);
    let mut k: usize = 0;
    while k < row.len()
        invariant
            tree.wf(),
            k <= row@.len(),
            row@ == named_of(tree.nodes@, i as int),
            forall|k: int| 0 <= k < row@.len() ==> (#[trigger] row@[k]) < tree.nodes@.len(),
            fits == equals_sign(tree.nodes@, src@, row@),
            first_from(0, row@.len() as int, fits) == first_from(k as int, row@.len() as int, fits),
        decreases row.len() - k,
    {
        if tree.is(row[k], "punctuation") && same(text(tree, row[k], src), "=") {
            assert(fits(k as int));
            if k + 1 >= row.len() {
                return None;
            }
            return match name_value(tree, row[k + 1], src) {
                Some((name, span)) => {
                    let created_as = if row.len() > 1 && tree.is(row[1], "symbol") {
                        Some(text(tree, row[1], src).to_string())
                    } else {
                        None
                    };
                    Some(ContextInstance { name, created_as, span })
                },
                None => None,
            };
        }
        k = k + 1;
    }
    None
}

/// The instances that the first `n` nodes create, in source order.
pub open spec fn created_instances(nodes: Seq<Node>, src: Seq<char>, n: int) -> Seq<InstanceView>
    decreases n,
{
    if n <= 0 {
        Seq::empty()
    } else if nodes[n - 1].kind@ == "named_context"@ && instance_at(nodes, src, n - 1) is Some {
        created_instances(nodes, src, n - 1).push(instance_at(nodes, src, n - 1)->0)
    } else {
        created_instances(nodes, src, n - 1)
    }
}

/// Reads every context instance name the tree's `\new` and `\context` calls create, in source
/// order.
pub fn read_instances(tree: &SyntaxTree, src: &str) -> (r: Vec<ContextInstance>)
    requires
        tree.wf(),
    ensures
        instance_views(r@) == created_instances(tree.nodes@, src@, tree.nodes@.len() as int),
{
    let mut out: Vec<ContextInstance> = Vec::new();
    assert(instance_views(out@) =~= Seq::empty());
    let mut i: usize = 0;
    while i < tree.nodes.len()
        invariant
            tree.wf(),
            i <= tree.nodes@.len(),
            instance_views(out@) == created_instances(tree.nodes@, src@, i as int),
        decreases tree.nodes.len() - i,
    {
        let ghost before = instance_views(out@);
        if tree.is(i, "named_context") {
            match read_named_context(tree, i, src) {
                Some(found) => {
                    out.push(found);
                    assert(instance_views(out@) =~= before.push(found@));
                },
                None => {},
            }
        }
        i = i + 1;
    }
    out
}

} // verus!
