//! Cursor-driven editor features built on the command table: signature help, completion and hover.
//!
//! Mostly they answer one question: which call is the cursor in, and at which argument. Completing a
//! name is the exception: a half-typed `\rela` is no call at all, so that answer comes from the
//! scope of the document.
use vstd::prelude::*;
use crate::command::behaviour::{CompletionContext, offered_candidates};
use crate::command::calls::{CallSite, call_site};
use crate::command::variable::{describe_value, is_summary};
use crate::command::{
    Arg, ArgKind, Behaviour, Candidate, CandidateView, Command, Param, arg_view, candidate_views,
    params_label, signature_label,
};
use crate::context::{ContextInstance, ContextType, text_in, texts_in};
use crate::document::Document;
use crate::finding::first_from;
use crate::line_struct::{offset_of, range_between};
use crate::lookup::context_at;
use crate::protocol::{Position, Range};
use crate::scope::{
    Visible, VisibleView, instance_known, known_context_instance, known_context_type, seen_from,
    type_known, visible, visible_views,
};
use crate::typing::{awaiting, keyword_awaiting_its_first_argument, typed_word, word_being_typed};
use crate::vocabulary::{Scope, lookup_in};

verus! {

/// The signature of the call at the cursor.
#[derive(Debug)]
pub struct SignatureHelp {
    pub label: String,
    /// The names of the parameters.
    pub parameters: Vec<String>,
    /// The parameter the cursor is at.
    pub active_parameter: Option<u32>,
}

/// What a completion stands for.
#[derive(Debug, Clone, Copy, PartialEq, Eq, Structural)]
pub enum ItemKind {
    /// A value that an argument accepts.
    Value,
    /// A command that takes no arguments.
    Variable,
    /// A command that takes arguments.
    Function,
}

/// One thing that can be written at the cursor.
#[derive(Debug)]
pub struct CompletionItem {
    pub label: String,
    pub kind: ItemKind,
    /// The line shown beside the label.
    pub detail: String,
    /// Longer documentation, in Markdown.
    pub documentation: Option<String>,
    /// The range that `label` replaces; none where it is inserted as it is.
    pub replaces: Option<Range>,
}

/// What a [`CompletionItem`] says.
pub struct ItemView {
    pub label: Seq<char>,
    pub kind: ItemKind,
    pub detail: Seq<char>,
    pub documentation: Option<Seq<char>>,
    pub replaces: Option<Range>,
}

impl View for CompletionItem {
    type V = ItemView;

    open spec fn view(&self) -> ItemView {
        ItemView {
            label: self.label@,
            kind: self.kind,
            detail: self.detail@,
            documentation: text_in(self.documentation),
            replaces: self.replaces,
        }
    }
}

pub open spec fn item_views(items: Seq<CompletionItem>) -> Seq<ItemView> {
    items.map_values(|item: CompletionItem| item@)
}

/// What is shown at the cursor, in Markdown, and for which range.
#[derive(Debug)]
pub struct Hover {
    pub markdown: String,
    pub range: Range,
}

/// The names of parameters.
pub open spec fn param_names(params: Seq<Param>) -> Seq<Seq<char>> {
    params.map_values(|param: Param| param.name@)
}

/// The call at a position, and the parameter there.
pub open spec fn site_at(document: Document, position: Position) -> Option<CallSite> {
    match offset_of(document.bytes(), position) {
        Some(offset) => call_site(document.calls(), offset, document.text@),
        None => None,
    }
}

/// The byte offset of `position` and the call site there. `None` when there is no command call at
/// `position`.
pub fn call_at(doc: &Document, position: Position) -> (r: Option<(usize, CallSite)>)
    requires
        doc.wf(),
    ensures
        match r {
            Some((offset, site)) => {
                &&& offset_of(doc.bytes(), position) == Some(offset as int)
                &&& site_at(*doc, position) == Some(site)
                &&& site.call < doc.calls().len()
            },
            None => site_at(*doc, position) is None,
        },
{
    match doc.line_index.offset_at(position) {
        Some(offset) => match doc.notes.commands.call_site_at(offset, doc.text.as_str()) {
            Some(site) => Some((offset, site)),
            None => None,
        },
        None => None,
    }
}

/// Whether `help` shows the signature of a command, with the parameter `index` active.
pub open spec fn is_signature(help: SignatureHelp, name: Seq<char>, params: Seq<Param>, index: usize) -> bool {
    &&& help.label@ == "\\"@ + name + params_label(params)
    &&& texts_in(help.parameters@) == param_names(params)
    &&& help.active_parameter == if index < params.len() {
        Some(index as u32)
    } else {
        None
    }
}

/// Signature help for the command call at `position`, if the cursor is in one. `None` for a command
/// with no parameters at all, where there is nothing to prompt with.
pub fn signature_help(doc: &Document, position: Position) -> (r: Option<SignatureHelp>)
    requires
        doc.wf(),
    ensures
        match site_at(*doc, position) {
            Some(site) => {
                let call = doc.calls()[site.call as int];
                if call.cmd.params@.len() == 0 {
                    r is None
                } else {
                    r is Some && is_signature(r->0, call.name@, call.cmd.params@, site.index)
                }
            },
            None => r is None,
        },
{
    match call_at(doc, position) {
        Some((_, site)) => {
            let call = &doc.notes.commands.calls[site.call];
            let params = &call.cmd.params;
            if params.len() == 0 {
                return None;
            }
            let active_parameter = if site.index < params.len() {
                Some(site.index as u32)
            } else {
                None
            };
            let mut parameters: Vec<String> = Vec::new();
            let mut k: usize = 0;
            while k < params.len()
                invariant
                    k <= params@.len(),
                    texts_in(parameters@) == param_names(
                        params@.subrange(0, k as int),
                    ),
                decreases params.len() - k,
            {
                let ghost before = texts_in(parameters@);
                parameters.push(params[k].name.clone());
                assert(texts_in(parameters@) =~= before.push(params@[k as int].name@));
                assert(texts_in(parameters@) =~= param_names(
                    params@.subrange(0, k + 1),
                ));
                k = k + 1;
            }
            assert(params@.subrange(0, k as int) =~= params@);
            let label = signature_label(call.name.as_str(), params);
            Some(SignatureHelp { label, parameters, active_parameter })
        },
        None => None,
    }
}

/// Which parameters of a group stand for more than a literal.
pub open spec fn varies(params: Seq<Param>) -> spec_fn(int) -> bool {
    |k: int| !(params[k].kind is Literal)
}

/// The kind that decides how a candidate is written: of a group, that of its first part that is not
/// a literal.
pub open spec fn written_as(kind: ArgKind) -> ArgKind {
    match kind {
        ArgKind::Group(sub) => match first_from(0, sub@.len() as int, varies(sub@)) {
            Some(k) => sub@[k as int].kind,
            None => kind,
        },
        other => other,
    }
}

/// The kind that decides how a candidate is written. `=` never offers any, so a group is decided by
/// its first part that is not a literal.
pub fn resolve_group(kind: &ArgKind) -> (r: &ArgKind)
    ensures
        *r == written_as(*kind),
{
    match kind {
        ArgKind::Group(sub) => {
            let ghost fits = varies(sub@);
            let mut k: usize = 0;
            while k < sub.len()
                invariant
                    k <= sub@.len(),
                    *kind == ArgKind::Group(*sub),
                    fits == varies(sub@),
                    first_from(0, sub@.len() as int, fits) == first_from(
                        k as int,
                        sub@.len() as int,
                        fits,
                    ),
                decreases sub.len() - k,
            {
                if !matches!(sub[k].kind, ArgKind::Literal(_)) {
                    assert(fits(k as int));
                    return &sub[k].kind;
                }
                k = k + 1;
            }
            kind
        },
        _ => kind,
    }
}

/// What is written for a candidate: its label, with the punctuation the parameter calls for.
pub open spec fn written(kind: ArgKind, label: Seq<char>) -> Seq<char> {
    match written_as(kind) {
        ArgKind::Word => "\\"@ + label,
        ArgKind::String | ArgKind::ContextName => "\""@ + label + "\""@,
        _ => label,
    }
}

/// The completion that a candidate makes for a parameter.
pub open spec fn item_of(param: Param, candidate: CandidateView) -> ItemView {
    ItemView {
        label: written(param.kind, candidate.label),
        kind: ItemKind::Value,
        detail: candidate.documentation,
        documentation: None,
        replaces: None,
    }
}

/// Renders one candidate for `param`, adding whatever punctuation the parameter calls for: a leading
/// backslash for a word, quotes for a string or the name of a context instance.
pub fn completion_item(param: &Param, candidate: &Candidate) -> (r: CompletionItem)
    ensures
        r@ == item_of(*param, candidate@),
{
    let label = match resolve_group(&param.kind) {
        ArgKind::Word => {
            let mut text = "\\".to_string();
            text.append(candidate.label.as_str());
            text
        },
        ArgKind::String | ArgKind::ContextName => {
            let mut text = "\"".to_string();
            text.append(candidate.label.as_str());
            text.append("\"");
            text
        },
        _ => candidate.label.clone(),
    };
    CompletionItem {
        label,
        kind: ItemKind::Value,
        detail: candidate.documentation.clone(),
        documentation: None,
        replaces: None,
    }
}

/// The completions that candidates make for a parameter.
pub open spec fn items_of(param: Param, candidates: Seq<CandidateView>) -> Seq<ItemView> {
    candidates.map_values(|candidate: CandidateView| item_of(param, candidate))
}

/// The completions that `candidates` make for `param`.
fn completion_items(param: &Param, candidates: &Vec<Candidate>) -> (r: Vec<CompletionItem>)
    ensures
        item_views(r@) == items_of(*param, candidate_views(candidates@)),
{
    let mut out: Vec<CompletionItem> = Vec::new();
    let mut k: usize = 0;
    while k < candidates.len()
        invariant
            k <= candidates@.len(),
            item_views(out@) == items_of(
                *param,
                candidate_views(candidates@.subrange(0, k as int)),
            ),
        decreases candidates.len() - k,
    {
        let item = completion_item(param, &candidates[k]);
        let ghost before = item_views(out@);
        out.push(item);
        assert(item_views(out@) =~= before.push(item@));
        assert(items_of(*param, candidate_views(candidates@.subrange(0, k + 1))) =~= items_of(
            *param,
            candidate_views(candidates@.subrange(0, k as int)),
        ).push(item@));
        k = k + 1;
    }
    assert(candidates@.subrange(0, k as int) =~= candidates@);
    out
}

/// The values that the call at a position accepts at the argument there.
pub open spec fn argument_items(document: Document, position: Position, ctx: CompletionContext) -> Seq<
    ItemView,
> {
    match site_at(document, position) {
        Some(site) => {
            let call = document.calls()[site.call as int];
            let offset = offset_of(document.bytes(), position)->0;
            if call.keyword.has(offset) || site.index >= call.cmd.params@.len() {
                Seq::empty()
            } else {
                items_of(
                    call.cmd.params@[site.index as int],
                    offered_candidates(*call.cmd, site.index as int, ctx),
                )
            }
        },
        None => Seq::empty(),
    }
}

/// The values the command at `position` accepts at the argument the cursor is in. Nothing while the
/// cursor is still in the command word itself: there the name is being typed.
pub fn argument_completions(doc: &Document, position: Position, ctx: &CompletionContext) -> (r: Vec<
    CompletionItem,
>)
    requires
        doc.wf(),
    ensures
        item_views(r@) == argument_items(*doc, position, *ctx),
{
    let nothing: Vec<CompletionItem> = Vec::new();
    assert(item_views(nothing@) =~= Seq::empty());
    match call_at(doc, position) {
        Some((offset, site)) => {
            let call = &doc.notes.commands.calls[site.call];
            if call.keyword.contains(offset) || site.index >= call.cmd.params.len() {
                return nothing;
            }
            let candidates = call.cmd.completions(site.index, ctx);
            completion_items(&call.cmd.params[site.index], &candidates)
        },
        None => nothing,
    }
}

/// The values that the keyword right before an offset accepts as its first argument.
pub open spec fn unparsed_items(document: Document, offset: int, ctx: CompletionContext) -> Seq<
    ItemView,
> {
    match awaiting(document.text@, offset) {
        Some(keyword) => match lookup_in(ctx.scope.layers@, keyword) {
            Some((command, _)) => if command.params@.len() > 0 {
                items_of(command.params@[0], offered_candidates(command, 0, ctx))
            } else {
                Seq::empty()
            },
            None => Seq::empty(),
        },
        None => Seq::empty(),
    }
}

/// What [`argument_completions`] cannot reach: a bare `\new`, `\context`, `\lyricsto` or `\change`
/// with nothing typed after it, which parses too poorly to be a call. The same candidates, found by
/// reading the keyword straight out of the text.
pub fn context_argument_completions(doc: &Document, offset: usize, ctx: &CompletionContext) -> (r:
    Vec<CompletionItem>)
    ensures
        item_views(r@) == unparsed_items(*doc, offset as int, *ctx),
{
    let nothing: Vec<CompletionItem> = Vec::new();
    assert(item_views(nothing@) =~= Seq::empty());
    match keyword_awaiting_its_first_argument(doc.text.as_str(), offset) {
        Some(keyword) => match ctx.scope.get(keyword) {
            Some((command, _)) => {
                if command.params.len() == 0 {
                    return nothing;
                }
                let candidates = command.completions(0, ctx);
                completion_items(&command.params[0], &candidates)
            },
            None => nothing,
        },
        None => nothing,
    }
}

/// Whether `documentation` is what a command says of itself beyond its signature. What a variable
/// says is what hover shows of its value.
pub open spec fn documents(
    documentation: Option<String>,
    command: Command,
    language: tree_sitter::Language,
) -> bool {
    match command.behaviour {
        Behaviour::Variable { value: Some(value) } => is_summary(
            documentation,
            command.name@,
            value,
            language,
        ),
        _ => text_in(documentation) == text_in(command.documentation),
    }
}

/// What a command says of itself beyond its signature.
pub fn documentation_of(command: &Command, language: &tree_sitter::Language) -> (r: Option<String>)
    ensures
        documents(r, *command, *language),
{
    match &command.behaviour {
        Behaviour::Variable { value: Some(value) } => describe_value(
            command.name.as_str(),
            value,
            language,
        ),
        _ => match &command.documentation {
            Some(text) => Some(text.clone()),
            None => None,
        },
    }
}

/// Two parts of a description, ruled off from each other.
pub open spec fn ruled(first: Seq<char>, second: Seq<char>) -> Seq<char> {
    first + "\n\n---\n\n"@ + second
}

fn rule_off(first: &str, second: &str) -> (r: String)
    ensures
        r@ == ruled(first@, second@),
{
    let mut out = first.to_string();
    out.append("\n\n---\n\n");
    out.append(second);
    out
}

/// What a command is: its synopsis, and its documentation where there is any.
pub open spec fn description(command: Command, documentation: Option<Seq<char>>) -> Option<
    Seq<char>,
> {
    match (command.synopsis_text(), documentation) {
        (Some(synopsis), Some(documentation)) => Some(ruled(synopsis, documentation)),
        (Some(only), None) => Some(only),
        (None, Some(only)) => Some(only),
        (None, None) => None,
    }
}

/// What a command is, given its documentation: its synopsis and the documentation, ruled off from
/// each other. `None` for a command that has neither.
pub fn describe_with(command: &Command, documentation: Option<String>) -> (r: Option<String>)
    ensures
        text_in(r) == description(*command, text_in(documentation)),
{
    match (command.synopsis(), documentation) {
        (Some(synopsis), Some(documentation)) => Some(
            rule_off(synopsis.as_str(), documentation.as_str()),
        ),
        (Some(only), None) => Some(only),
        (None, Some(only)) => Some(only),
        (None, None) => None,
    }
}

/// Whether `described` is what a command is, read with a grammar.
pub open spec fn describes(
    described: Option<Seq<char>>,
    command: Command,
    language: tree_sitter::Language,
) -> bool {
    exists|documentation: Option<String>|
        #[trigger] documents(documentation, command, language) && described == description(
            command,
            text_in(documentation),
        )
}

/// What a command is, as Markdown.
pub fn describe(command: &Command, language: &tree_sitter::Language) -> (r: Option<String>)
    ensures
        describes(text_in(r), *command, *language),
{
    let documentation = documentation_of(command, language);
    let ghost known = documentation;
    let r = describe_with(command, documentation);
    assert(documents(known, *command, *language));
    r
}

/// Whether `item` completes the name of a command that a scope can see.
pub open spec fn is_name_item(
    item: CompletionItem,
    seen: VisibleView,
    range: Range,
    language: tree_sitter::Language,
) -> bool {
    &&& item.label@ == "\\"@ + seen.name
    &&& item.kind == if seen.command.params@.len() == 0 {
        ItemKind::Variable
    } else {
        ItemKind::Function
    }
    &&& item.detail@ == seen.origin
    &&& describes(text_in(item.documentation), seen.command, language)
    &&& item.replaces == Some(range)
}

/// Whether `items` complete the names of the commands that a scope can see, in order.
pub open spec fn are_name_items(
    items: Seq<CompletionItem>,
    seen: Seq<VisibleView>,
    range: Range,
    language: tree_sitter::Language,
) -> bool {
    items.len() == seen.len() && forall|k: int|
        0 <= k < items.len() ==> is_name_item(#[trigger] items[k], seen[k], range, language)
}

/// Every command the document can see, as completions that replace `range`: the `\word` written so
/// far, backslash and all. Each says where it came from.
pub fn command_names(scope: &Scope, range: Range, language: &tree_sitter::Language) -> (r: Vec<
    CompletionItem,
>)
    ensures
        are_name_items(
            r@,
            seen_from(scope.layers@, scope.layers@.len() as int),
            range,
            *language,
        ),
{
    let seen = visible(scope);
    let ghost views = seen_from(scope.layers@, scope.layers@.len() as int);
    let mut out: Vec<CompletionItem> = Vec::new();
    let mut k: usize = 0;
    while k < seen.len()
        invariant
            k <= seen@.len(),
            visible_views(seen@) == views,
            out@.len() == k,
            forall|j: int|
                0 <= j < k ==> is_name_item(#[trigger] out@[j], views[j], range, *language),
        decreases seen.len() - k,
    {
        let one: &Visible = &seen[k];
        assert(views[k as int] == one@);
        let mut label = "\\".to_string();
        label.append(one.name.as_str());
        let kind = if one.command.params.len() == 0 {
            ItemKind::Variable
        } else {
            ItemKind::Function
        };
        let documentation = describe(&one.command, language);
        let detail = one.origin.as_str().to_string();
        out.push(CompletionItem { label, kind, detail, documentation, replaces: Some(range) });
        k = k + 1;
    }
    out
}

/// Whether `items` are what can be written at a position.
pub open spec fn are_completions(
    items: Seq<CompletionItem>,
    document: Document,
    position: Position,
    ctx: CompletionContext,
    language: tree_sitter::Language,
) -> bool {
    let arguments = argument_items(document, position, ctx);
    if arguments.len() > 0 {
        item_views(items) == arguments
    } else {
        match offset_of(document.bytes(), position) {
            None => items.len() == 0,
            Some(offset) => {
                let unparsed = unparsed_items(document, offset, ctx);
                if unparsed.len() > 0 {
                    item_views(items) == unparsed
                } else {
                    match typed_word(document.text@, offset as usize) {
                        Some(typed) => are_name_items(
                            items,
                            seen_from(ctx.scope.layers@, ctx.scope.layers@.len() as int),
                            range_between(document.bytes(), typed),
                            language,
                        ),
                        None => items.len() == 0,
                    }
                }
            },
        }
    }
}

/// What can be written at `position`.
///
/// The narrowest answer comes first: at an argument whose parameter has a closed set of accepted
/// values, those values and nothing else. Failing that, the same for a keyword that parses too
/// poorly to be a call; and failing that, inside a `\word`, every command the scope can see.
/// Everywhere else there is nothing: an open-ended parameter is better left alone than guessed at.
pub fn completions(
    doc: &Document,
    position: Position,
    ctx: &CompletionContext,
    language: &tree_sitter::Language,
) -> (r: Vec<CompletionItem>)
    requires
        doc.wf(),
    ensures
        are_completions(r@, *doc, position, *ctx, *language),
{
    let arguments = argument_completions(doc, position, ctx);
    assert(item_views(arguments@).len() == arguments@.len());
    if arguments.len() > 0 {
        return arguments;
    }
    match doc.line_index.offset_at(position) {
        Some(offset) => {
            let unparsed = context_argument_completions(doc, offset, ctx);
            assert(item_views(unparsed@).len() == unparsed@.len());
            if unparsed.len() > 0 {
                return unparsed;
            }
            match word_being_typed(doc.text.as_str(), offset) {
                Some(typed) => command_names(
                    ctx.scope,
                    doc.line_index.range_of(typed),
                    language,
                ),
                None => Vec::new(),
            }
        },
        None => Vec::new(),
    }
}

/// A description, with where it came from above it.
pub open spec fn attributed(origin: Seq<char>, described: Seq<char>) -> Seq<char> {
    "*"@ + origin + "*\n\n"@ + described
}

/// `described`, with where it came from italicised above it.
pub fn attribute(origin: &str, described: &str) -> (r: String)
    ensures
        r@ == attributed(origin@, described@),
{
    let mut out = "*".to_string();
    out.append(origin);
    out.append("*\n\n");
    out.append(described);
    out
}

/// The first `n` aliases in backquotes, with commas between.
pub open spec fn listed_aliases(aliases: Seq<String>, n: int) -> Seq<char>
    decreases n,
{
    if n <= 0 {
        Seq::empty()
    } else if n == 1 {
        "`"@ + aliases[0]@ + "`"@
    } else {
        listed_aliases(aliases, n - 1) + ", "@ + ("`"@ + aliases[n - 1]@ + "`"@)
    }
}

/// What a context type is: the aliases it also answers to, and its description.
pub open spec fn type_description(context_type: ContextType) -> Option<Seq<char>> {
    let n = context_type.aliases@.len() as int;
    if n == 0 {
        text_in(context_type.description)
    } else {
        let synopsis = "`"@ + context_type.name@ + "` context, also known as "@ + listed_aliases(
            context_type.aliases@,
            n,
        );
        match context_type.description {
            Some(description) => Some(ruled(synopsis, description@)),
            None => Some(synopsis),
        }
    }
}

/// What a context type is, as Markdown: its name and the aliases it also answers to, then its
/// description where it has one. `None` for a type with neither.
pub fn describe_context_type(context_type: &ContextType) -> (r: Option<String>)
    ensures
        text_in(r) == type_description(*context_type),
{
    let aliases = &context_type.aliases;
    if aliases.len() == 0 {
        return match &context_type.description {
            Some(text) => Some(text.clone()),
            None => None,
        };
    }
    let mut synopsis = "`".to_string();
    synopsis.append(context_type.name.as_str());
    synopsis.append("` context, also known as ");
    let ghost head = synopsis@;
    let mut k: usize = 0;
    assert(synopsis@ =~= head + listed_aliases(aliases@, 0));
    while k < aliases.len()
        invariant
            k <= aliases@.len(),
            synopsis@ == head + listed_aliases(aliases@, k as int),
        decreases aliases.len() - k,
    {
        let ghost before = synopsis@;
        if k > 0 {
            synopsis.append(", ");
        }
        synopsis.append("`");
        synopsis.append(aliases[k].as_str());
        synopsis.append("`");
        assert(synopsis@ =~= head + listed_aliases(aliases@, k + 1));
        k = k + 1;
    }
    match &context_type.description {
        Some(description) => Some(rule_off(synopsis.as_str(), description.as_str())),
        None => Some(synopsis),
    }
}

/// What a context instance is: the type it was created as.
pub open spec fn instance_description(instance: ContextInstance) -> Option<Seq<char>> {
    match instance.created_as {
        Some(created_as) => Some(
            "`"@ + instance.name@ + "` — a `"@ + created_as@ + "` context"@,
        ),
        None => None,
    }
}

/// What a context instance is: which type it was created as. `None` where none was written.
pub fn describe_context_instance(instance: &ContextInstance) -> (r: Option<String>)
    ensures
        text_in(r) == instance_description(*instance),
{
    match &instance.created_as {
        Some(created_as) => {
            let mut out = "`".to_string();
            out.append(instance.name.as_str());
            out.append("` — a `");
            out.append(created_as.as_str());
            out.append("` context");
            Some(out)
        },
        None => None,
    }
}

/// What is shown at the cursor.
pub struct HoverView {
    pub markdown: Seq<char>,
    pub range: Range,
}

impl View for Hover {
    type V = HoverView;

    open spec fn view(&self) -> HoverView {
        HoverView { markdown: self.markdown@, range: self.range }
    }
}

pub open spec fn hover_in(hover: Option<Hover>) -> Option<HoverView> {
    match hover {
        Some(hover) => Some(hover@),
        None => None,
    }
}

/// A description with its origin, where there is a description.
pub open spec fn attributed_if(origin: Seq<char>, described: Option<Seq<char>>) -> Option<
    Seq<char>,
> {
    match described {
        Some(described) => Some(attributed(origin, described)),
        None => None,
    }
}

/// What is known of the context that an argument names.
pub open spec fn known_context(arg: Arg, scope: Scope) -> Option<Seq<char>> {
    match arg {
        Arg::ContextType { name, .. } => match type_known(scope.layers@, name@) {
            Some((found, origin)) => attributed_if(origin, type_description(found)),
            None => None,
        },
        Arg::ContextName { name, .. } => match instance_known(scope.layers@, name@) {
            Some((found, origin)) => attributed_if(origin, instance_description(found)),
            None => None,
        },
        _ => None,
    }
}

/// What is shown for the context at a position.
pub open spec fn context_hover_at(document: Document, position: Position, scope: Scope) -> Option<
    HoverView,
> {
    match context_at(document, position) {
        Some(arg) => match known_context(arg, scope) {
            Some(markdown) => Some(
                HoverView {
                    markdown,
                    range: range_between(document.bytes(), arg_view(arg).place()),
                },
            ),
            None => None,
        },
        None => None,
    }
}

/// Hover documentation for the context type or instance at `position`, if the cursor sits on one.
/// `None` when it is anywhere else, and when the name is unknown to the scope.
pub fn context_hover(doc: &Document, position: Position, scope: &Scope) -> (r: Option<Hover>)
    requires
        doc.wf(),
    ensures
        hover_in(r) == context_hover_at(*doc, position, *scope),
{
    match doc.context_arg_at(position) {
        Some(arg) => {
            let range = doc.line_index.range_of(arg.span());
            match arg {
                Arg::ContextType { name, .. } => match known_context_type(scope, name.as_str()) {
                    Some((found, origin)) => match describe_context_type(found) {
                        Some(described) => Some(
                            Hover { markdown: attribute(origin, described.as_str()), range },
                        ),
                        None => None,
                    },
                    None => None,
                },
                Arg::ContextName { name, .. } => match known_context_instance(
                    scope,
                    name.as_str(),
                ) {
                    Some((found, origin)) => match describe_context_instance(found) {
                        Some(described) => Some(
                            Hover { markdown: attribute(origin, described.as_str()), range },
                        ),
                        None => None,
                    },
                    None => None,
                },
                _ => None,
            }
        },
        None => None,
    }
}

/// The call whose command word is at a position.
pub open spec fn hovered_call(document: Document, position: Position) -> Option<usize> {
    match site_at(document, position) {
        Some(site) => if document.calls()[site.call as int].keyword.has(
            offset_of(document.bytes(), position)->0,
        ) {
            Some(site.call)
        } else {
            None
        },
        None => None,
    }
}

/// What is shown for a command word, given the description of the command.
pub open spec fn command_hover(
    origin: Seq<char>,
    described: Option<Seq<char>>,
    range: Range,
) -> Option<HoverView> {
    match attributed_if(origin, described) {
        Some(markdown) => Some(HoverView { markdown, range }),
        None => None,
    }
}

/// Whether `hover` is what is shown at a position.
pub open spec fn is_hover(
    hover: Option<HoverView>,
    document: Document,
    position: Position,
    scope: Scope,
    language: tree_sitter::Language,
) -> bool {
    match context_hover_at(document, position, scope) {
        Some(shown) => hover == Some(shown),
        None => match hovered_call(document, position) {
            Some(k) => {
                let call = document.calls()[k as int];
                exists|described: Option<Seq<char>>|
                    #[trigger] describes(described, *call.cmd, language) && hover == command_hover(
                        call.origin@,
                        described,
                        range_between(document.bytes(), call.keyword),
                    )
            },
            None => hover is None,
        },
    }
}

/// Hover documentation for the name at `position`.
///
/// On a context type or instance argument, what that is. On a command word, where the command came
/// from and what it is; nothing for a command with neither synopsis nor documentation. Nothing
/// anywhere else in a call's header or body.
pub fn hover(doc: &Document, position: Position, scope: &Scope, language: &tree_sitter::Language) -> (r:
    Option<Hover>)
    requires
        doc.wf(),
    ensures
        is_hover(hover_in(r), *doc, position, *scope, *language),
{
    match context_hover(doc, position, scope) {
        Some(shown) => {
            return Some(shown);
        },
        None => {},
    }
    match call_at(doc, position) {
        Some((offset, site)) => {
            let call = &doc.notes.commands.calls[site.call];
            if !call.keyword.contains(offset) {
                return None;
            }
            let range = doc.line_index.range_of(call.keyword);
            let described = describe(&call.cmd, language);
            let ghost known = text_in(described);
            assert(describes(known, *call.cmd, *language));
            match described {
                Some(described) => Some(
                    Hover { markdown: attribute(call.origin.as_str(), described.as_str()), range },
                ),
                None => None,
            }
        },
        None => None,
    }
}

} // verus!
