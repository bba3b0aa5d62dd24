//! What an editor shows at the cursor: which argument it is in, and what is offered and shown there.
use vstd::prelude::*;
use vstd::utf8::*;
use crate::command::{
    Arg, ArgKind, CandidateView, Command, CommandCall, Param, arg_view, params_label,
};
use crate::command::behaviour::{CompletionContext, offered_candidates};
use crate::command::calls::{
    aligned, call_site, covered, covering, fits_kind, next_param, white_run,
};
use crate::command_assist::{
    CompletionItem, HoverView, ItemKind, SignatureHelp, are_completions, are_name_items,
    argument_items, attributed_if, command_hover, describes, description, instance_description,
    is_hover, is_signature, item_views, listed_aliases, param_names, ruled, site_at,
    type_description, unparsed_items, varies, written, written_as,
};
use crate::context::{ContextInstance, ContextType, text_in, texts_in};
use crate::document::Document;
use crate::finding::{first_from, last_below, lemma_first_from, lemma_last_below};
use crate::laws::commands::quotes;
use crate::line_struct::Span;
use crate::line_struct::{offset_of, range_between};
use crate::lookup::context_at;
use crate::protocol::{Position, Range};
use crate::scope::VisibleView;
use crate::scope::{instance_known, seen_from, type_known};
use crate::typing::{
    ascii_blank, awaiting, before_offset, breaks_name, ends_in, name_char, typed_word, unblanked,
};
use crate::vocabulary::{Scope, lookup_in};

verus! {

/// Whether each argument belongs to the parameter that `at` gives it: they go in order, each fits its
/// own, and what is skipped in between would not have fitted.
pub open spec fn belong(args: Seq<Arg>, params: Seq<Param>, at: Seq<int>) -> bool {
    &&& at.len() == args.len()
    &&& forall|k: int| 0 <= k < args.len() ==> 0 <= #[trigger] at[k] < params.len()
    &&& forall|k: int| 0 <= k < args.len() ==> fits_kind(#[trigger] args[k], params[at[k]].kind)
    &&& forall|k: int, p: int|
        0 <= k < args.len() && (if k == 0 {
            0
        } else {
            at[k - 1] + 1
        }) <= p < at[k] ==> !fits_kind(#[trigger] args[k], (#[trigger] params[p]).kind)
    &&& forall|j: int, k: int| 0 <= j < k < args.len() ==> #[trigger] at[j] < #[trigger] at[k]
}

/// Whether an argument is a string that its closing quote ends.
pub open spec fn ends_in_quote(arg: Arg, bytes: Seq<u8>) -> bool {
    let end = arg_view(arg).place().end;
    arg is String && 0 < end <= bytes.len() && bytes[end - 1] == '"' as u32
}

/// Whether what is typed at an offset comes behind an argument: behind its end, or right at the end
/// of a string that is closed.
pub open spec fn comes_behind(arg: Arg, offset: int, bytes: Seq<u8>) -> bool {
    let end = arg_view(arg).place().end;
    offset > end || (offset == end && ends_in_quote(arg, bytes))
}

proof fn lemma_next_param(arg: Arg, params: Seq<Param>, p: int, q: int)
    requires
        0 <= p <= q < params.len(),
        fits_kind(arg, params[q].kind),
        forall|r: int| p <= r < q ==> !fits_kind(arg, (#[trigger] params[r]).kind),
    ensures
        next_param(arg, params, p) == q,
    decreases q - p,
{
    if p < q {
        assert(!fits_kind(arg, params[p].kind));
        lemma_next_param(arg, params, p + 1, q);
    }
}

proof fn lemma_aligned(
    args: Seq<Arg>,
    params: Seq<Param>,
    at: Seq<int>,
    k: int,
    n: int,
    offset: int,
    bytes: Seq<u8>,
)
    requires
        belong(args, params, at),
        0 <= k <= n <= args.len(),
        forall|j: int| k <= j < n ==> comes_behind(#[trigger] args[j], offset, bytes),
        n < args.len() ==> !comes_behind(args[n], offset, bytes),
    ensures
        ({
            let free = if k == 0 {
                0
            } else {
                at[k - 1] + 1
            };
            aligned(args, params, k, free, offset, bytes) == if n < args.len() {
                (at[n], Some(n))
            } else {
                (
                    if n == 0 {
                        0
                    } else {
                        at[n - 1] + 1
                    },
                    None,
                )
            }
        }),
    decreases n - k,
{
    let free = if k == 0 {
        0
    } else {
        at[k - 1] + 1
    };
    if k < args.len() {
        assert(0 <= at[k] < params.len());
        if k > 0 {
            assert(at[k - 1] < at[k]);
            assert(0 <= at[k - 1]);
        }
        assert(fits_kind(args[k], params[at[k]].kind));
        assert forall|r: int| free <= r < at[k] implies !fits_kind(
            args[k],
            (#[trigger] params[r]).kind,
        ) by {
            assert(!fits_kind(args[k], params[r].kind));
        }
        lemma_next_param(args[k], params, free, at[k]);
        if k < n {
            assert(comes_behind(args[k], offset, bytes));
            lemma_aligned(args, params, at, k + 1, n, offset, bytes);
        }
    }
}

/// The cursor is at the parameter of the first argument that it is not behind yet. Behind all of
/// them it is at the parameter that follows the last.
pub proof fn law_the_cursor_is_at_the_parameter_it_writes(
    args: Seq<Arg>,
    params: Seq<Param>,
    at: Seq<int>,
    n: int,
    offset: int,
    bytes: Seq<u8>,
)
    requires
        belong(args, params, at),
        0 <= n <= args.len(),
        forall|j: int| 0 <= j < n ==> comes_behind(#[trigger] args[j], offset, bytes),
        n < args.len() ==> !comes_behind(args[n], offset, bytes),
    ensures
        ({
            let (parameter, argument) = aligned(args, params, 0, 0, offset, bytes);
            &&& n < args.len() ==> parameter == at[n] && argument == Some(n)
            &&& n == args.len() && n > 0 ==> parameter == at[n - 1] + 1 && argument is None
            &&& n == args.len() && n == 0 ==> parameter == 0 && argument is None
        }),
{
    lemma_aligned(args, params, at, 0, n, offset, bytes);
}

/// Whether all characters of a text can stand in the name of a command.
pub open spec fn all_name(text: Seq<char>) -> bool {
    forall|k: int| 0 <= k < text.len() ==> name_char(#[trigger] text[k])
}

/// The word being typed is what stands between the last backslash and the cursor, backslash and all,
/// where only characters of names do.
pub proof fn law_a_word_being_typed_starts_at_its_backslash(
    src: Seq<char>,
    offset: usize,
    head: Seq<char>,
    word: Seq<char>,
)
    requires
        before_offset(src, offset as int) == Some(head + seq!['\\'] + word),
        head.len() + word.len() < usize::MAX,
        all_name(word),
        !name_char('\\'),
    ensures
        typed_word(src, offset) == Some(
            Span { start: encode_utf8(head).len() as usize, end: offset },
        ),
{
    let text = head + seq!['\\'] + word;
    let fits = breaks_name(text);
    let n = text.len() as int;
    let at = head.len() as int;
    lemma_last_below(n, fits);
    assert(text[at] == '\\');
    assert(fits(at));
    assert(last_below(n, fits) == Some(at as usize)) by {
        match last_below(n, fits) {
            Some(k) => {
                if k > at {
                    assert(text[k as int] == word[k - at - 1]);
                    assert(name_char(word[k - at - 1]));
                } else if k < at {
                    assert(!fits(at));
                }
            },
            None => {
                assert(!fits(at));
            },
        }
    }
    assert(text.subrange(0, at) =~= head);
}

/// What is being typed is never more than a backslash and characters of a name, right before the
/// cursor.
pub proof fn law_only_a_word_is_being_typed(src: Seq<char>, offset: usize)
    requires
        typed_word(src, offset) is Some,
        before_offset(src, offset as int)->0.len() <= usize::MAX,
    ensures
        exists|head: Seq<char>, word: Seq<char>|
            {
                &&& before_offset(src, offset as int) == Some(
                    #[trigger] (head + seq!['\\'] + word),
                )
                &&& all_name(word)
                &&& typed_word(src, offset) == Some(
                    Span { start: encode_utf8(head).len() as usize, end: offset },
                )
            },
{
    let text = before_offset(src, offset as int)->0;
    let fits = breaks_name(text);
    let n = text.len() as int;
    lemma_last_below(n, fits);
    let k = last_below(n, fits)->0 as int;
    let head = text.subrange(0, k);
    let word = text.subrange(k + 1, n);
    assert(text =~= head + seq!['\\'] + word);
    assert forall|j: int| 0 <= j < word.len() implies name_char(#[trigger] word[j]) by {
        assert(!fits(k + 1 + j));
    }
}

/// Whether nothing but ASCII white space stands in a text.
pub open spec fn all_blank(text: Seq<char>) -> bool {
    forall|k: int|
        0 <= k < text.len() ==> {
            let c = #[trigger] text[k];
            c == ' ' || c == '\t' || c == '\n' || c == '\r' || c as u32 == 12
        }
}

/// Whether a word can start behind a text: the text ends neither in a character of a name nor in a
/// backslash.
pub open spec fn lets_start(head: Seq<char>) -> bool {
    head.len() > 0 ==> !name_char(head.last()) && head.last() != '\\'
}

proof fn lemma_unblanked(text: Seq<char>, blanks: Seq<char>)
    requires
        all_blank(blanks),
        text.len() > 0 ==> !ascii_blank(text.last()),
    ensures
        unblanked(text + blanks) == text.len(),
    decreases blanks.len(),
{
    if blanks.len() > 0 {
        let rest = blanks.drop_last();
        assert((text + blanks).drop_last() =~= text + rest);
        assert((text + blanks).last() == blanks[blanks.len() - 1]);
        assert forall|k: int| 0 <= k < rest.len() implies {
            let c = #[trigger] rest[k];
            c == ' ' || c == '\t' || c == '\n' || c == '\r' || c as u32 == 12
        } by {
            assert(rest[k] == blanks[k]);
        }
        lemma_unblanked(text, rest);
    } else {
        assert(text + blanks =~= text);
    }
}

proof fn lemma_keywords()
    ensures
        "\\new"@ == seq!['\\'] + "new"@,
        "\\context"@ == seq!['\\'] + "context"@,
        "\\lyricsto"@ == seq!['\\'] + "lyricsto"@,
        "\\change"@ == seq!['\\'] + "change"@,
        "new"@.len() == 3 && "new"@.last() == 'w',
        "context"@.len() == 7 && "context"@.last() == 't',
        "lyricsto"@.len() == 8 && "lyricsto"@.last() == 'o',
        "change"@.len() == 6 && "change"@.last() == 'e',
{
    reveal_strlit("\\new");
    reveal_strlit("\\context");
    reveal_strlit("\\lyricsto");
    reveal_strlit("\\change");
    reveal_strlit("new");
    reveal_strlit("context");
    reveal_strlit("lyricsto");
    reveal_strlit("change");
    assert("\\new"@ =~= seq!['\\'] + "new"@);
    assert("\\context"@ =~= seq!['\\'] + "context"@);
    assert("\\lyricsto"@ =~= seq!['\\'] + "lyricsto"@);
    assert("\\change"@ =~= seq!['\\'] + "change"@);
}

/// Whether `keyword` is one of those that are no call until their first argument is there.
pub open spec fn awaits_a_context(keyword: Seq<char>) -> bool {
    keyword == "new"@ || keyword == "context"@ || keyword == "lyricsto"@ || keyword == "change"@
}

/// Behind `\new`, `\context`, `\lyricsto` and `\change`, with at most white space before the cursor,
/// the first argument of just that keyword is awaited.
pub proof fn law_a_keyword_awaits_its_first_argument(
    src: Seq<char>,
    offset: int,
    head: Seq<char>,
    keyword: Seq<char>,
    blanks: Seq<char>,
)
    requires
        before_offset(src, offset) == Some(head + seq!['\\'] + keyword + blanks),
        lets_start(head),
        awaits_a_context(keyword),
        all_blank(blanks),
    ensures
        awaiting(src, offset) == Some(keyword),
{
    lemma_keywords();
    let text = head + seq!['\\'] + keyword;
    assert(text.last() == keyword.last());
    lemma_unblanked(text, blanks);
    let before = text + blanks;
    let kept = before.subrange(0, text.len() as int);
    assert(kept =~= text);
    let whole = seq!['\\'] + keyword;
    assert(text.subrange(head.len() as int, text.len() as int) =~= whole);
    assert(text[head.len() - 1] == head[head.len() - 1] || head.len() == 0);
    assert(ends_in(text, whole));
    assert forall|other: Seq<char>| other.len() > 0 && #[trigger] ends_in(text, other) implies
        other.last() == keyword.last() by {
        let tail = text.subrange(text.len() - other.len(), text.len() as int);
        assert(tail.last() == text.last());
    }
    assert("\\new"@.last() == 'w' && "\\context"@.last() == 't' && "\\lyricsto"@.last() == 'o'
        && "\\change"@.last() == 'e');
}

/// No other keyword awaits its first argument without being a call.
pub proof fn law_only_keywords_of_contexts_await(src: Seq<char>, offset: int)
    requires
        awaiting(src, offset) is Some,
    ensures
        awaits_a_context(awaiting(src, offset)->0),
        exists|head: Seq<char>, blanks: Seq<char>|
            before_offset(src, offset) == Some(
                #[trigger] (head + seq!['\\'] + awaiting(src, offset)->0 + blanks),
            ) && lets_start(head) && all_blank(blanks),
{
    lemma_keywords();
    let before = before_offset(src, offset)->0;
    let n = unblanked(before) as int;
    lemma_blank_tail(before);
    let text = before.subrange(0, n);
    let keyword = awaiting(src, offset)->0;
    let whole = seq!['\\'] + keyword;
    assert(ends_in(text, whole));
    let at = text.len() - whole.len();
    let head = text.subrange(0, at);
    let blanks = before.subrange(n, before.len() as int);
    assert(text =~= head + whole);
    assert(before =~= text + blanks);
    assert(head + seq!['\\'] + keyword =~= head + whole);
    assert(before =~= head + seq!['\\'] + keyword + blanks);
}

proof fn lemma_blank_tail(text: Seq<char>)
    ensures
        unblanked(text) <= text.len(),
        all_blank(text.subrange(unblanked(text) as int, text.len() as int)),
    decreases text.len(),
{
    if text.len() > 0 && ascii_blank(text.last()) {
        lemma_blank_tail(text.drop_last());
        let n = unblanked(text) as int;
        let tail = text.subrange(n, text.len() as int);
        let rest = text.drop_last().subrange(n, text.len() - 1);
        assert forall|k: int| 0 <= k < tail.len() implies {
            let c = #[trigger] tail[k];
            c == ' ' || c == '\t' || c == '\n' || c == '\r' || c as u32 == 12
        } by {
            if k < rest.len() {
                assert(rest[k] == tail[k]);
            }
        }
    }
}

/// The kind that a candidate is written for at a parameter: of parameters read as one, that of the
/// first that is more than a fixed token.
pub open spec fn stands_for(kind: ArgKind, actual: ArgKind) -> bool {
    match kind {
        ArgKind::Group(parts) => exists|k: int|
            0 <= k < parts@.len() && (#[trigger] parts@[k]).kind == actual && !(actual is Literal)
                && forall|j: int| 0 <= j < k ==> (#[trigger] parts@[j]).kind is Literal,
        _ => kind == actual,
    }
}

/// The candidates for the argument at a position.
pub open spec fn offered_at(document: Document, position: Position, ctx: CompletionContext) -> Seq<
    CandidateView,
> {
    let site = site_at(document, position)->0;
    offered_candidates(*document.calls()[site.call as int].cmd, site.index as int, ctx)
}

/// The kind of the parameter at a position.
pub open spec fn kind_at(document: Document, position: Position) -> ArgKind {
    let site = site_at(document, position)->0;
    document.calls()[site.call as int].cmd.params@[site.index as int].kind
}

/// What is offered for an argument can be written there as it is: a word has its backslash, a string
/// and the name of a context stand in quotes, and everything else is the candidate's label. All are
/// values, put where the cursor is.
pub proof fn law_what_is_offered_is_written_as_the_argument_reads(
    document: Document,
    position: Position,
    ctx: CompletionContext,
    actual: ArgKind,
    i: int,
)
    requires
        0 <= i < argument_items(document, position, ctx).len(),
        site_at(document, position) is Some,
        stands_for(kind_at(document, position), actual),
    ensures
        ({
            let label = offered_at(document, position, ctx)[i].label;
            let item = argument_items(document, position, ctx)[i];
            &&& actual is Word ==> item.label.len() == label.len() + 1 && item.label[0] == '\\'
                && item.label.subrange(1, item.label.len() as int) == label
            &&& actual is String || actual is ContextName ==> item.label.len() == label.len() + 2
                && item.label[0] == '"' && item.label.last() == '"' && item.label.subrange(
                1,
                item.label.len() - 1,
            ) == label
            &&& !(actual is Word) && !(actual is String) && !(actual is ContextName) ==> item.label
                == label
            &&& item.kind == ItemKind::Value
            &&& item.replaces is None
        }),
{
    let kind = kind_at(document, position);
    let label = offered_at(document, position, ctx)[i].label;
    let item = argument_items(document, position, ctx)[i];
    assert(item.label == written(kind, label));
    match kind {
        ArgKind::Group(parts) => {
            let k = choose|k: int|
                0 <= k < parts@.len() && (#[trigger] parts@[k]).kind == actual && !(
                actual is Literal) && forall|j: int|
                    0 <= j < k ==> (#[trigger] parts@[j]).kind is Literal;
            let n = parts@.len() as int;
            assert(n == parts.len());
            let fits = varies(parts@);
            lemma_first_from(0, n, fits);
            assert(fits(k));
            match first_from(0, n, fits) {
                Some(j) => {
                    assert(fits(j as int));
                    if j > k {
                        assert(!fits(k));
                    }
                    if j < k {
                        assert(parts@[j as int].kind is Literal);
                    }
                },
                None => {
                    assert(!fits(k));
                },
            }
        },
        _ => {},
    }
    assert(written_as(kind) == actual);
    reveal_strlit("\\");
    reveal_strlit("\"");
    assert("\\"@ =~= seq!['\\']);
    assert("\""@ =~= seq!['"']);
    if actual is Word {
        assert(item.label.subrange(1, item.label.len() as int) =~= label);
    }
    if actual is String || actual is ContextName {
        assert(item.label.subrange(1, item.label.len() - 1) =~= label);
    }
}

/// Each command that can be seen completes to its name behind a backslash, which replaces what was
/// typed of it, and says where it comes from. One that takes nothing is a variable.
pub proof fn law_names_complete_with_their_backslash(
    items: Seq<CompletionItem>,
    seen: Seq<VisibleView>,
    range: Range,
    language: tree_sitter::Language,
    i: int,
)
    requires
        are_name_items(items, seen, range, language),
        0 <= i < seen.len(),
    ensures
        items.len() == seen.len(),
        items[i].label@.len() == seen[i].name.len() + 1,
        items[i].label@[0] == '\\',
        items[i].label@.subrange(1, items[i].label@.len() as int) == seen[i].name,
        items[i].detail@ == seen[i].origin,
        items[i].replaces == Some(range),
        items[i].kind == ItemKind::Variable <==> seen[i].command.params@.len() == 0,
        items[i].kind == ItemKind::Function <==> seen[i].command.params@.len() > 0,
{
    let item = items[i];
    reveal_strlit("\\");
    assert("\\"@ =~= seq!['\\']);
    assert(item.label@.subrange(1, item.label@.len() as int) =~= seen[i].name);
}

/// Whether a text starts with another.
pub open spec fn starts_with(text: Seq<char>, start: Seq<char>) -> bool {
    start.len() <= text.len() && text.subrange(0, start.len() as int) == start
}

/// Whether a text ends with another.
pub open spec fn ends_with(text: Seq<char>, end: Seq<char>) -> bool {
    end.len() <= text.len() && text.subrange(text.len() - end.len(), text.len() as int) == end
}

/// A parameter as a signature shows it: in brackets where it may be left out.
pub open spec fn shown(param: Param) -> Seq<char> {
    if param.optional {
        seq!['['] + param.name@ + seq![']']
    } else {
        param.name@
    }
}

proof fn lemma_params_label(params: Seq<Param>, k: int)
    requires
        0 <= k < params.len(),
    ensures
        exists|before: Seq<char>, behind: Seq<char>|
            {
                &&& params_label(params) == #[trigger] (before + (seq![' '] + shown(params[k]))
                    + behind)
                &&& before == params_label(params.subrange(0, k))
                &&& k + 1 == params.len() ==> behind.len() == 0
                &&& k + 1 < params.len() ==> behind.len() > 0 && behind[0] == ' '
            },
    decreases params.len(),
{
    reveal_strlit(" ");
    reveal_strlit("[");
    reveal_strlit("]");
    assert(" "@ =~= seq![' ']);
    assert("["@ =~= seq!['[']);
    assert("]"@ =~= seq![']']);
    let rest = params.drop_last();
    let last = params.last();
    let tail = seq![' '] + shown(last);
    assert(params_label(params) =~= params_label(rest) + tail);
    if k + 1 == params.len() {
        assert(params.subrange(0, k) =~= rest);
        assert(params_label(params) =~= params_label(rest) + (seq![' '] + shown(params[k]))
            + Seq::empty());
    } else {
        lemma_params_label(rest, k);
        assert(rest.subrange(0, k) =~= params.subrange(0, k));
        let (before, behind) = choose|before: Seq<char>, behind: Seq<char>|
            {
                &&& params_label(rest) == #[trigger] (before + (seq![' '] + shown(rest[k]))
                    + behind)
                &&& before == params_label(rest.subrange(0, k))
                &&& k + 1 == rest.len() ==> behind.len() == 0
                &&& k + 1 < rest.len() ==> behind.len() > 0 && behind[0] == ' '
            };
        assert(params_label(params) =~= before + (seq![' '] + shown(params[k])) + (behind + tail));
        assert((behind + tail)[0] == ' ');
    }
}

/// A signature shows its parameters in order, each behind a space and up to the next one.
pub proof fn law_a_signature_shows_each_parameter(params: Seq<Param>, k: int)
    requires
        0 <= k < params.len(),
    ensures
        ({
            let label = params_label(params);
            let from = params_label(params.subrange(0, k)).len() as int;
            let to = from + 1 + shown(params[k]).len();
            &&& to <= label.len()
            &&& label[from] == ' '
            &&& label.subrange(from + 1, to) == shown(params[k])
            &&& to == label.len() <==> k + 1 == params.len()
            &&& to < label.len() ==> label[to] == ' '
        }),
{
    lemma_params_label(params, k);
    let (before, behind) = choose|before: Seq<char>, behind: Seq<char>|
        {
            &&& params_label(params) == #[trigger] (before + (seq![' '] + shown(params[k])) + behind)
            &&& before == params_label(params.subrange(0, k))
            &&& k + 1 == params.len() ==> behind.len() == 0
            &&& k + 1 < params.len() ==> behind.len() > 0 && behind[0] == ' '
        };
    let label = params_label(params);
    let from = before.len() as int;
    let to = from + 1 + shown(params[k]).len();
    assert(label.subrange(from + 1, to) =~= shown(params[k]));
}

/// A command that takes something is described by its signature, as code, and then by what is
/// written about it.
pub proof fn law_a_description_starts_with_the_signature(
    command: Command,
    documentation: Option<Seq<char>>,
)
    ensures
        ({
            let described = description(command, documentation);
            let signature = "```lilypond\n\\"@ + command.name@ + params_label(command.params@)
                + "\n```"@;
            &&& described is None <==> command.params@.len() == 0 && documentation is None
            &&& command.params@.len() > 0 ==> starts_with(described->0, signature)
            &&& command.params@.len() > 0 && documentation is None ==> described->0 == signature
            &&& command.params@.len() == 0 ==> described == documentation
            &&& documentation is Some ==> ends_with(described->0, documentation->0)
            &&& documentation is Some && command.params@.len() > 0 ==> described->0.len()
                == signature.len() + 7 + documentation->0.len()
        }),
{
    reveal_strlit("```lilypond\n\\");
    reveal_strlit("```lilypond\n");
    reveal_strlit("\\");
    reveal_strlit("\n\n---\n\n");
    assert("```lilypond\n\\"@ =~= "```lilypond\n"@ + "\\"@);
    assert("\n\n---\n\n"@.len() == 7);
    let signature = "```lilypond\n\\"@ + command.name@ + params_label(command.params@) + "\n```"@;
    if command.params@.len() > 0 {
        assert(command.synopsis_text()->0 =~= signature);
        match documentation {
            Some(text) => {
                let all = ruled(signature, text);
                assert(all.subrange(0, signature.len() as int) =~= signature);
                assert(all.subrange(all.len() - text.len(), all.len() as int) =~= text);
            },
            None => {
                assert(signature.subrange(0, signature.len() as int) =~= signature);
            },
        }
    } else {
        match documentation {
            Some(text) => {
                assert(text.subrange(0, text.len() as int) =~= text);
            },
            None => {},
        }
    }
}

/// What is shown with its origin starts with the origin, in italics and on a line of its own, and
/// ends with what it was; where there is nothing to show, the origin alone is not shown.
pub proof fn law_what_is_shown_says_where_it_came_from(
    origin: Seq<char>,
    described: Option<Seq<char>>,
)
    ensures
        ({
            let markdown = attributed_if(origin, described);
            &&& markdown is Some <==> described is Some
            &&& markdown is Some ==> {
                let text = markdown->0;
                &&& text.len() == 4 + origin.len() + described->0.len()
                &&& text[0] == '*'
                &&& text.subrange(1, 1 + origin.len() as int) == origin
                &&& text.subrange(1 + origin.len() as int, 4 + origin.len() as int) == seq![
                    '*',
                    '\n',
                    '\n',
                ]
                &&& text.subrange(4 + origin.len() as int, text.len() as int) == described->0
            }
        }),
{
    reveal_strlit("*");
    reveal_strlit("*\n\n");
    assert("*"@ =~= seq!['*']);
    assert("*\n\n"@ =~= seq!['*', '\n', '\n']);
    if let Some(text) = described {
        let all = attributed_if(origin, described)->0;
        assert(all =~= seq!['*'] + origin + seq!['*', '\n', '\n'] + text);
        assert(all.subrange(1, 1 + origin.len() as int) =~= origin);
        assert(all.subrange(1 + origin.len() as int, 4 + origin.len() as int) =~= seq![
            '*',
            '\n',
            '\n',
        ]);
        assert(all.subrange(4 + origin.len() as int, all.len() as int) =~= text);
    }
}

proof fn lemma_quotes_more(before: Seq<char>, text: Seq<char>, behind: Seq<char>, word: Seq<char>)
    requires
        quotes(text, word),
    ensures
        quotes(before + text + behind, word),
{
    let all = before + text + behind;
    let k = choose|k: int|
        0 < k && k + word.len() < text.len() && text[k - 1] == '`' && text[k + word.len()] == '`'
            && #[trigger] text.subrange(k, k + word.len()) == word;
    let at = before.len() + k;
    assert(all.subrange(at, at + word.len()) =~= text.subrange(k, k + word.len()));
    assert(all[at - 1] == text[k - 1]);
    assert(all[at + word.len()] == text[k + word.len()]);
}

proof fn lemma_quoted(word: Seq<char>)
    ensures
        quotes("`"@ + word + "`"@, word),
{
    reveal_strlit("`");
    let text = "`"@ + word + "`"@;
    assert(text.subrange(1, 1 + word.len() as int) =~= word);
}

proof fn lemma_listed_aliases(aliases: Seq<String>, n: int, k: int)
    requires
        0 <= k < n <= aliases.len(),
    ensures
        quotes(listed_aliases(aliases, n), aliases[k]@),
    decreases n,
{
    lemma_quoted(aliases[k]@);
    if n > 1 {
        let rest = listed_aliases(aliases, n - 1);
        let last = "`"@ + aliases[n - 1]@ + "`"@;
        if k < n - 1 {
            lemma_listed_aliases(aliases, n - 1, k);
            lemma_quotes_more(Seq::empty(), rest, ", "@ + last, aliases[k]@);
            assert(Seq::<char>::empty() + rest + (", "@ + last) =~= rest + ", "@ + last);
        } else {
            lemma_quotes_more(rest + ", "@, last, Seq::empty(), aliases[k]@);
            assert(rest + ", "@ + last + Seq::<char>::empty() =~= rest + ", "@ + last);
        }
    }
}

/// A context type with aliases is described by its name and each of them, all quoted, and then by its
/// description; one without by its description alone.
pub proof fn law_a_context_type_is_described_with_its_aliases(context_type: ContextType, k: int)
    ensures
        ({
            let described = type_description(context_type);
            let aliases = context_type.aliases@;
            &&& aliases.len() == 0 ==> described == text_in(context_type.description)
            &&& aliases.len() > 0 ==> described is Some && quotes(
                described->0,
                context_type.name@,
            )
            &&& 0 <= k < aliases.len() ==> quotes(described->0, aliases[k]@)
            &&& context_type.description is Some ==> described is Some && ends_with(
                described->0,
                context_type.description->0@,
            )
        }),
{
    let aliases = context_type.aliases@;
    let n = aliases.len() as int;
    if n > 0 {
        let name = context_type.name@;
        reveal_strlit("` context, also known as ");
        reveal_strlit("`");
        let middle = "` context, also known as "@;
        assert(middle[0] == '`');
        let listed = listed_aliases(aliases, n);
        let synopsis = "`"@ + name + middle + listed;
        assert(synopsis.subrange(1, 1 + name.len() as int) =~= name);
        assert(quotes(synopsis, name));
        let described = type_description(context_type)->0;
        match context_type.description {
            Some(text) => {
                let tail = "\n\n---\n\n"@ + text@;
                assert(described =~= Seq::<char>::empty() + synopsis + tail);
                lemma_quotes_more(Seq::empty(), synopsis, tail, name);
                assert(described.subrange(described.len() - text@.len(), described.len() as int)
                    =~= text@);
                if 0 <= k < n {
                    lemma_listed_aliases(aliases, n, k);
                    lemma_quotes_more("`"@ + name + middle, listed, tail, aliases[k]@);
                    assert(described =~= "`"@ + name + middle + listed + tail);
                }
            },
            None => {
                if 0 <= k < n {
                    lemma_listed_aliases(aliases, n, k);
                    lemma_quotes_more("`"@ + name + middle, listed, Seq::empty(), aliases[k]@);
                    assert(described =~= "`"@ + name + middle + listed + Seq::<char>::empty());
                }
            },
        }
    } else if let Some(text) = context_type.description {
        assert(text@.subrange(0, text@.len() as int) =~= text@);
    }
}

/// A context instance is described by its name and the type it was created as, both quoted; one
/// whose type is not known is not described.
pub proof fn law_a_context_is_described_by_its_type(instance: ContextInstance)
    ensures
        instance_description(instance) is Some <==> instance.created_as is Some,
        instance.created_as is Some ==> quotes(instance_description(instance)->0, instance.name@)
            && quotes(instance_description(instance)->0, instance.created_as->0@),
{
    if let Some(created) = instance.created_as {
        reveal_strlit("`");
        reveal_strlit("` — a `");
        reveal_strlit("` context");
        let name = instance.name@;
        let middle = "` — a `"@;
        let text = instance_description(instance)->0;
        let n = name.len() as int;
        let m = middle.len() as int;
        assert(middle[0] == '`' && middle[m - 1] == '`');
        assert(text.subrange(1, 1 + n) =~= name);
        assert(text[0] == '`' && text[1 + n] == '`');
        let at = 1 + n + m;
        assert(text.subrange(at, at + created@.len()) =~= created@);
        assert("` context"@[0] == '`');
        assert(text[at - 1] == '`' && text[at + created@.len()] == '`');
    }
}

/// Whether a byte is white space.
pub open spec fn is_white_byte(byte: u8) -> bool {
    byte == ' ' as u32 || byte == '\t' as u32 || byte == '\n' as u32 || byte == '\r' as u32 || byte
        == 12
}

/// Whether only white space stands in `[from, to)`.
pub open spec fn only_white(bytes: Seq<u8>, from: int, to: int) -> bool {
    forall|k: int| from <= k < to ==> is_white_byte(#[trigger] bytes[k])
}

proof fn lemma_white_run(bytes: Seq<u8>, from: int, to: int)
    requires
        0 <= from <= to <= bytes.len(),
        only_white(bytes, from, to),
    ensures
        white_run(bytes, from) >= to - from,
        to == bytes.len() || !is_white_byte(bytes[to]) ==> white_run(bytes, from) == to - from,
        to < bytes.len() && is_white_byte(bytes[to]) ==> white_run(bytes, from) > to - from,
    decreases to - from,
{
    if from < to {
        assert(is_white_byte(bytes[from]));
        lemma_white_run(bytes, from + 1, to);
    }
}

proof fn lemma_white_inside(bytes: Seq<u8>, from: int, k: int)
    requires
        0 <= from <= k < from + white_run(bytes, from),
    ensures
        k < bytes.len(),
        is_white_byte(bytes[k]),
    decreases k - from,
{
    if from < k {
        lemma_white_inside(bytes, from + 1, k);
    }
}

/// A call is the one being typed into from its keyword on and through the white space behind it: up to
/// the end of the text, and right before what stands behind the white space only while a parameter is
/// left to fill. Behind anything else it is over.
pub proof fn law_a_call_goes_on_through_the_white_space_behind_it(
    call: CommandCall,
    offset: int,
    bytes: Seq<u8>,
)
    requires
        call.span.start <= call.span.end <= bytes.len(),
        0 <= offset <= bytes.len(),
    ensures
        ({
            let end = call.span.end as int;
            let left = aligned(call.args@, call.cmd.params@, 0, 0, offset, bytes).0
                < call.cmd.params@.len();
            &&& offset < call.span.start ==> !covered(call, offset, bytes)
            &&& call.span.start <= offset < end ==> covered(call, offset, bytes)
            &&& end <= offset && !only_white(bytes, end, offset) ==> !covered(call, offset, bytes)
            &&& end <= offset && only_white(bytes, end, offset) && (offset == bytes.len()
                || is_white_byte(bytes[offset])) ==> covered(call, offset, bytes)
            &&& end <= offset < bytes.len() && only_white(bytes, end, offset) && !is_white_byte(
                bytes[offset],
            ) ==> (covered(call, offset, bytes) <==> left)
        }),
{
    let end = call.span.end as int;
    if end <= offset {
        if only_white(bytes, end, offset) {
            lemma_white_run(bytes, end, offset);
        } else {
            let k = choose|k: int| end <= k < offset && !is_white_byte(#[trigger] bytes[k]);
            if k < end + white_run(bytes, end) {
                lemma_white_inside(bytes, end, k);
            }
        }
    }
}

/// Inside the music that a call takes, the cursor is at none of its parameters.
pub proof fn law_inside_its_music_a_call_offers_nothing(
    calls: Seq<CommandCall>,
    offset: int,
    src: Seq<char>,
    c: int,
    k: int,
    at: Seq<int>,
)
    requires
        calls.len() <= usize::MAX,
        0 <= c < calls.len(),
        covered(calls[c], offset, encode_utf8(src)),
        forall|j: int| c < j < calls.len() ==> !covered(#[trigger] calls[j], offset, encode_utf8(src)),
        belong(calls[c].args@, calls[c].cmd.params@, at),
        0 <= k < calls[c].args@.len(),
        forall|j: int|
            0 <= j < k ==> comes_behind(#[trigger] calls[c].args@[j], offset, encode_utf8(src)),
        calls[c].args@[k] is Music,
        calls[c].args@[k]->Music_span.start < offset < calls[c].args@[k]->Music_span.end,
    ensures
        call_site(calls, offset, src) is None,
{
    let bytes = encode_utf8(src);
    let fits = covering(calls, offset, bytes);
    lemma_last_below(calls.len() as int, fits);
    assert(fits(c));
    match last_below(calls.len() as int, fits) {
        Some(j) => {
            assert(fits(j as int));
            if j > c {
                assert(!covered(calls[j as int], offset, bytes));
            } else if j < c {
                assert(!fits(c));
            }
        },
        None => {},
    }
    lemma_aligned(calls[c].args@, calls[c].cmd.params@, at, 0, k, offset, bytes);
}

/// Signature help shows the call as it is typed: a backslash, the name, and the parameters, whose names
/// it lists in order; the active one is that at the cursor, and none behind the last.
pub proof fn law_signature_help_lists_the_parameters(
    help: SignatureHelp,
    name: Seq<char>,
    params: Seq<Param>,
    index: usize,
    k: int,
)
    requires
        is_signature(help, name, params, index),
        params.len() <= u32::MAX,
    ensures
        starts_with(help.label@, seq!['\\'] + name),
        help.label@.subrange((name.len() + 1) as int, help.label@.len() as int) == params_label(params),
        help.parameters@.len() == params.len(),
        0 <= k < params.len() ==> help.parameters@[k]@ == params[k].name@,
        index < params.len() ==> help.active_parameter is Some && help.active_parameter->0 == index,
        index >= params.len() ==> help.active_parameter is None,
{
    reveal_strlit("\\");
    assert("\\"@ =~= seq!['\\']);
    let label = help.label@;
    let start = seq!['\\'] + name;
    assert(label.subrange(0, start.len() as int) =~= start);
    assert(label.subrange((name.len() + 1) as int, label.len() as int) =~= params_label(params));
    assert(texts_in(help.parameters@).len() == param_names(params).len());
    if 0 <= k < params.len() {
        assert(texts_in(help.parameters@)[k] == param_names(params)[k]);
    }
}

/// On a command word, hover shows the word with where the command came from, where there is anything to
/// show. In the rest of a call, and outside of calls, it shows nothing, but on the name of a context.
pub proof fn law_hover_is_for_command_words(
    hover: Option<HoverView>,
    document: Document,
    position: Position,
    scope: Scope,
    language: tree_sitter::Language,
    offset: int,
)
    requires
        is_hover(hover, document, position, scope, language),
        offset_of(document.bytes(), position) == Some(offset),
        context_at(document, position) is None,
    ensures
        ({
            let site = site_at(document, position);
            let call = document.calls()[site->0.call as int];
            &&& site is None ==> hover is None
            &&& site is Some && !(call.keyword.start <= offset < call.keyword.end) ==> hover is None
            &&& hover is Some ==> {
                let shown = hover->0;
                &&& shown.range == range_between(document.bytes(), call.keyword)
                &&& starts_with(shown.markdown, seq!['*'] + call.origin@ + seq!['*', '\n', '\n'])
            }
        }),
{
    if hover is Some {
        let site = site_at(document, position)->0;
        let origin = document.calls()[site.call as int].origin@;
        let described = choose|described: Option<Seq<char>>|
            #[trigger] describes_call(described, document, site.call as int, language)
                && hover == command_hover(
                origin,
                described,
                range_between(
                    document.bytes(),
                    document.calls()[site.call as int].keyword,
                ),
            );
        assert(exists|described: Option<Seq<char>>|
            #[trigger] describes_call(described, document, site.call as int, language)
                && hover == command_hover(
                origin,
                described,
                range_between(document.bytes(), document.calls()[site.call as int].keyword),
            )) by {
            lemma_hovered(hover, document, site.call as int, language);
        }
        law_what_is_shown_says_where_it_came_from(origin, described);
        let text = hover->0.markdown;
        let start = seq!['*'] + origin + seq!['*', '\n', '\n'];
        let n = origin.len() as int;
        assert(text.subrange(1 + n, 4 + n) == seq!['*', '\n', '\n']);
        assert(text.subrange(0, start.len() as int) =~= start) by {
            assert(text.len() >= 4 + n);
            assert forall|k: int| 0 <= k < start.len() implies text[k] == #[trigger] start[k] by {
                if 1 <= k < 1 + n {
                    assert(text.subrange(1, 1 + n)[k - 1] == text[k]);
                } else if k >= 1 + n {
                    assert(text.subrange(1 + n, 4 + n)[k - 1 - n] == text[k]);
                }
            }
        }
    }
}

spec fn describes_call(
    described: Option<Seq<char>>,
    document: Document,
    k: int,
    language: tree_sitter::Language,
) -> bool {
    describes(described, *document.calls()[k].cmd, language)
}

proof fn lemma_hovered(
    hover: Option<HoverView>,
    document: Document,
    k: int,
    language: tree_sitter::Language,
)
    requires
        exists|described: Option<Seq<char>>|
            #[trigger] describes(described, *document.calls()[k].cmd, language) && hover
                == command_hover(
                document.calls()[k].origin@,
                described,
                range_between(document.bytes(), document.calls()[k].keyword),
            ),
    ensures
        exists|described: Option<Seq<char>>|
            #[trigger] describes_call(described, document, k, language) && hover == command_hover(
                document.calls()[k].origin@,
                described,
                range_between(document.bytes(), document.calls()[k].keyword),
            ),
{
    assert forall|described: Option<Seq<char>>|
        #[trigger] describes(described, *document.calls()[k].cmd, language) && hover
            == command_hover(
            document.calls()[k].origin@,
            described,
            range_between(document.bytes(), document.calls()[k].keyword),
        ) implies describes_call(described, document, k, language) by {}
    let described = choose|described: Option<Seq<char>>|
        #[trigger] describes_call(described, document, k, language) && hover == command_hover(
            document.calls()[k].origin@,
            described,
            range_between(document.bytes(), document.calls()[k].keyword),
        );
}

/// On the name of a context type or a context that is known, hover shows what is known of it, where its
/// name stands, and where it came from; whatever command stands there.
pub proof fn law_hover_on_a_context_shows_the_context(
    hover: Option<HoverView>,
    document: Document,
    position: Position,
    scope: Scope,
    language: tree_sitter::Language,
    arg: Arg,
)
    requires
        is_hover(hover, document, position, scope, language),
        context_at(document, position) == Some(arg),
    ensures
        match arg {
            Arg::ContextType { name, span } => match type_known(scope.layers@, name@) {
                Some((found, origin)) => type_description(found) is Some ==> hover == Some(
                    HoverView {
                        markdown: attributed_if(origin, type_description(found))->0,
                        range: range_between(document.bytes(), span),
                    },
                ),
                None => true,
            },
            Arg::ContextName { name, span } => match instance_known(scope.layers@, name@) {
                Some((found, origin)) => instance_description(found) is Some ==> hover == Some(
                    HoverView {
                        markdown: attributed_if(origin, instance_description(found))->0,
                        range: range_between(document.bytes(), span),
                    },
                ),
                None => true,
            },
            _ => true,
        },
{
}

/// Completion is as narrow as it can be: the values that the argument at the cursor accepts, where it
/// has any; else those of the keyword right before the cursor; else, in a command word, all the names
/// that can be seen, in place of the word; and nothing anywhere else.
pub proof fn law_completion_is_as_narrow_as_it_can_be(
    items: Seq<CompletionItem>,
    document: Document,
    position: Position,
    ctx: CompletionContext,
    language: tree_sitter::Language,
    offset: int,
    i: int,
)
    requires
        are_completions(items, document, position, ctx, language),
        offset_of(document.bytes(), position) == Some(offset),
    ensures
        ({
            let arguments = argument_items(document, position, ctx);
            let unparsed = unparsed_items(document, offset, ctx);
            let seen = seen_from(ctx.scope.layers@, ctx.scope.layers@.len() as int);
            let word = typed_word(document.text@, offset as usize);
            &&& arguments.len() > 0 ==> items.len() == arguments.len()
            &&& arguments.len() > 0 && 0 <= i < items.len() ==> items[i]@ == arguments[i]
            &&& arguments.len() == 0 && unparsed.len() > 0 ==> items.len() == unparsed.len()
            &&& arguments.len() == 0 && unparsed.len() > 0 && 0 <= i < items.len() ==> items[i]@
                == unparsed[i]
            &&& arguments.len() == 0 && unparsed.len() == 0 && word is Some ==> items.len()
                == seen.len()
            &&& arguments.len() == 0 && unparsed.len() == 0 && word is Some && 0 <= i < items.len()
                ==> items[i].replaces == Some(range_between(document.bytes(), word->0))
            &&& arguments.len() == 0 && unparsed.len() == 0 && word is None ==> items.len() == 0
        }),
{
    assert(item_views(items).len() == items.len());
    if 0 <= i < items.len() {
        assert(item_views(items)[i] == items[i]@);
    }
}

/// Behind a keyword that awaits its first argument, what is offered is what the command of that name
/// offers for its first parameter.
pub proof fn law_a_keyword_offers_its_first_argument(
    document: Document,
    offset: int,
    ctx: CompletionContext,
    keyword: Seq<char>,
    i: int,
)
    requires
        awaiting(document.text@, offset) == Some(keyword),
        0 <= i < unparsed_items(document, offset, ctx).len(),
    ensures
        lookup_in(ctx.scope.layers@, keyword) is Some,
        ({
            let (command, _) = lookup_in(ctx.scope.layers@, keyword)->0;
            &&& command.params@.len() > 0
            &&& unparsed_items(document, offset, ctx).len() == offered_candidates(
                command,
                0,
                ctx,
            ).len()
            &&& unparsed_items(document, offset, ctx)[i].label == written(
                command.params@[0].kind,
                offered_candidates(command, 0, ctx)[i].label,
            )
        }),
{
}

} // verus!
