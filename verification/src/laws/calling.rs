//! Calls: what each command takes, how calls are put together, and in which order they come.
use vstd::prelude::*;
use std::sync::Arc;
use crate::command::{ArgKind, ArgView, Command, KindView, ParamView, param_views};
use crate::command::builtins::{curated_commands_rows, reserved_rows};
use crate::command::collect::{
    Ground, calls_along, calls_inside, earliest_first, lies_in, notes_behind, put_call,
};
use crate::command::parse::{
    CallView, call_at, change_arguments_at, command_arguments_at, new_context_arguments_at, parsed,
};
use crate::command::reader::{RunView, argument_at};
use crate::command::specs::shape_of_command;
use crate::laws::arguments::{is_punctuation, lemma_marks, read_arg, read_to};
use crate::laws::commands::{known_function, reserved_word};
use crate::line_struct::Span;
use crate::note_names::NoteName;
use crate::scope::{instance_known, type_known};
use crate::syntax::{Node, children_of};
use crate::text::cut_of;
use crate::vocabulary::{
    Layer, Scope, instance_among, instance_in, language_among, lookup_in, type_among, type_in,
};

verus! {

/// Whether a parameter must be there and reads a kind of argument.
pub open spec fn takes(param: ParamView, kind: KindView) -> bool {
    param.kind == kind && !param.optional
}

/// Whether a parameter may be left out and reads a kind of argument.
pub open spec fn may_take(param: ParamView, kind: KindView) -> bool {
    param.kind == kind && param.optional
}

/// What the built-in commands take, beside those that take nothing but music.
#[verifier::rlimit(80)]
pub proof fn law_what_reserved_words_take(command: Command, name: Seq<char>)
    requires
        reserved_word(command, name),
    ensures
        ({
            let params = param_views(command.params@);
            &&& name == "repeat"@ ==> params.len() == 3 && takes(params[0], KindView::BareWord)
                && takes(params[1], KindView::Count) && takes(params[2], KindView::Music)
            &&& name == "set"@ || name == "unset"@ ==> params.len() == 1 && takes(
                params[0],
                KindView::PropertyPath,
            )
            &&& name == "version"@ || name == "include"@ ==> params.len() == 1 && takes(
                params[0],
                KindView::String,
            )
            &&& name == "change"@ ==> params.len() == 2 && takes(params[0], KindView::ContextType)
                && takes(params[1], KindView::ContextName)
            &&& name == "lyricsto"@ ==> params.len() == 2 && may_take(
                params[0],
                KindView::ContextName,
            ) && takes(params[1], KindView::Music)
            &&& name == "new"@ || name == "context"@ ==> params.len() == 4 && takes(
                params[0],
                KindView::ContextType,
            ) && params[1].optional && params[1].kind is Group && params[2].optional && takes(
                params[3],
                KindView::Music,
            )
            &&& name == "tempo"@ ==> params.len() == 2 && may_take(params[0], KindView::String)
                && params[1].optional && params[1].kind is Group
            &&& name == "alternative"@ || name == "notemode"@ || name == "notes"@ || name
                == "chordmode"@ || name == "chords"@ || name == "drummode"@ || name == "drums"@
                || name == "figuremode"@ || name == "figures"@ || name == "lyricmode"@ || name
                == "lyrics"@ || name == "addlyrics"@ || name == "markup"@ || name == "markuplist"@
                || name == "header"@ || name == "paper"@ || name == "layout"@ || name == "midi"@
                || name == "with"@ ==> params.len() == 1 && takes(params[0], KindView::Music)
        }),
{
    let rows = reserved_rows();
    let k = choose|k: int|
        0 <= k < rows.len() && crate::command::builtins::is_row(
            command,
            #[trigger] reserved_rows()[k],
        );
    crate::command::builtins::lemma_reserved_distinct();
    assert(rows[k].name == name);
    assert(rows[0].name == "alternative"@ && rows[1].name == "notemode"@ && rows[2].name
        == "notes"@ && rows[3].name == "chordmode"@ && rows[4].name == "chords"@);
    assert(rows[5].name == "drummode"@ && rows[6].name == "drums"@ && rows[7].name
        == "figuremode"@ && rows[8].name == "figures"@ && rows[9].name == "lyricmode"@);
    assert(rows[10].name == "lyrics"@ && rows[11].name == "addlyrics"@ && rows[12].name
        == "markup"@ && rows[13].name == "markuplist"@ && rows[14].name == "header"@);
    assert(rows[15].name == "paper"@ && rows[16].name == "layout"@ && rows[17].name == "midi"@
        && rows[18].name == "with"@ && rows[19].name == "set"@);
    assert(rows[20].name == "unset"@ && rows[21].name == "tempo"@ && rows[22].name == "repeat"@
        && rows[23].name == "version"@ && rows[24].name == "new"@);
    assert(rows[25].name == "context"@ && rows[26].name == "change"@ && rows[27].name
        == "lyricsto"@ && rows[28].name == "include"@);
}

/// What the music functions take whose signatures this library knows.
pub proof fn law_what_known_functions_take(command: Command, name: Seq<char>)
    requires
        known_function(command, name),
    ensures
        ({
            let params = param_views(command.params@);
            &&& name == "relative"@ || name == "fixed"@ ==> params.len() == 2 && may_take(
                params[0],
                KindView::Pitch,
            ) && takes(params[1], KindView::Music)
            &&& name == "transpose"@ ==> params.len() == 3 && takes(params[0], KindView::Pitch)
                && takes(params[1], KindView::Pitch) && takes(params[2], KindView::Music)
            &&& name == "key"@ ==> params.len() == 2 && takes(params[0], KindView::Pitch) && takes(
                params[1],
                KindView::Word,
            )
            &&& name == "clef"@ || name == "language"@ ==> params.len() == 1 && takes(
                params[0],
                KindView::String,
            )
            &&& name == "volta"@ ==> params.len() == 2 && takes(params[0], KindView::NumberList)
                && takes(params[1], KindView::Music)
        }),
{
    let rows = curated_commands_rows();
    let k = choose|k: int|
        0 <= k < rows.len() && crate::command::builtins::is_row(
            command,
            #[trigger] curated_commands_rows()[k],
        );
    crate::command::builtins::lemma_curated_commands_distinct();
    assert(rows[k].name == name);
    assert(rows[0].name == "volta"@ && rows[1].name == "clef"@ && rows[2].name == "key"@
        && rows[3].name == "transpose"@);
    assert(rows[4].name == "relative"@ && rows[5].name == "fixed"@ && rows[6].name
        == "language"@);
}

/// What unfolding looks for in a repeat, a volta and an alternative is what these commands take.
pub proof fn law_unfolding_looks_for_what_the_commands_take(command: Command, name: Seq<char>, k: int)
    requires
        name == "repeat"@ || name == "volta"@ || name == "alternative"@,
        reserved_word(command, name) || known_function(command, name),
        0 <= k < param_views(command.params@).len(),
    ensures
        shape_of_command(name) is Some,
        shape_of_command(name)->0.len() == param_views(command.params@).len(),
        shape_of_command(name)->0[k] == param_views(command.params@)[k].kind,
{
    reveal_strlit("repeat");
    reveal_strlit("volta");
    reveal_strlit("alternative");
    assert("repeat"@.len() == 6);
    assert("volta"@.len() == 5);
    assert("alternative"@.len() == 11);
    if reserved_word(command, name) {
        law_what_reserved_words_take(command, name);
        if name == "volta"@ {
            lemma_volta_is_not_reserved(command);
        }
    } else {
        law_what_known_functions_take(command, name);
        lemma_only_volta_is_known(command, name);
    }
}

proof fn lemma_volta_is_not_reserved(command: Command)
    ensures
        !reserved_word(command, "volta"@),
{
    if reserved_word(command, "volta"@) {
        let rows = reserved_rows();
        let k = choose|k: int|
            0 <= k < rows.len() && crate::command::builtins::is_row(
                command,
                #[trigger] reserved_rows()[k],
            );
        reveal_strlit("volta");
        reveal_strlit("notes");
        reveal_strlit("drums");
        reveal_strlit("paper");
        reveal_strlit("unset");
        reveal_strlit("tempo");
        reveal_strlit("alternative");
        reveal_strlit("notemode");
        reveal_strlit("chordmode");
        reveal_strlit("chords");
        reveal_strlit("drummode");
        reveal_strlit("figuremode");
        reveal_strlit("figures");
        reveal_strlit("lyricmode");
        reveal_strlit("lyrics");
        reveal_strlit("addlyrics");
        reveal_strlit("markup");
        reveal_strlit("markuplist");
        reveal_strlit("header");
        reveal_strlit("layout");
        reveal_strlit("midi");
        reveal_strlit("with");
        reveal_strlit("set");
        reveal_strlit("repeat");
        reveal_strlit("version");
        reveal_strlit("new");
        reveal_strlit("context");
        reveal_strlit("change");
        reveal_strlit("lyricsto");
        reveal_strlit("include");
        assert("volta"@.len() == 5 && "volta"@[0] == 'v');
        assert("notes"@[0] == 'n' && "drums"@[0] == 'd' && "paper"@[0] == 'p' && "unset"@[0] == 'u'
            && "tempo"@[0] == 't');
        assert(rows[k].name == "volta"@);
        assert(rows[k].name.len() == 5 ==> rows[k].name[0] != 'v');
    }
}

proof fn lemma_only_volta_is_known(command: Command, name: Seq<char>)
    requires
        known_function(command, name),
        name == "repeat"@ || name == "volta"@ || name == "alternative"@,
    ensures
        name == "volta"@,
{
    let rows = curated_commands_rows();
    let k = choose|k: int|
        0 <= k < rows.len() && crate::command::builtins::is_row(
            command,
            #[trigger] curated_commands_rows()[k],
        );
    reveal_strlit("volta");
    reveal_strlit("clef");
    reveal_strlit("key");
    reveal_strlit("transpose");
    reveal_strlit("relative");
    reveal_strlit("fixed");
    reveal_strlit("language");
    reveal_strlit("repeat");
    reveal_strlit("alternative");
    assert(rows[k].name == name);
    assert(rows[k].name.len() != 6 && rows[k].name.len() != 11);
}

/// A call is named by its keyword without the backslash, means what the scope knows by that name, and
/// reaches from the keyword to the end of its last argument. Where the scope knows no such name there
/// is no call.
pub proof fn law_a_call_means_what_its_name_does(
    run: RunView,
    keyword: int,
    start: int,
    scope: Scope,
    name: Seq<char>,
)
    requires
        run.nodes[keyword].kind@ == "escaped_word"@,
        cut_of(
            run.src,
            run.nodes[keyword].start as int,
            run.nodes[keyword].end as int,
        ) == seq!['\\'] + name,
    ensures
        ({
            let found = call_at(run, keyword, start, scope);
            let node = run.nodes[keyword];
            match lookup_in(scope.layers@, name) {
                None => found is None,
                Some((command, origin)) => {
                    let (args, next) = command_arguments_at(command, run, start);
                    &&& found is Some
                    &&& found == Some(
                        (
                            CallView {
                                name,
                                keyword: Span { start: node.start, end: node.end },
                                span: Span {
                                    start: node.start,
                                    end: if args.len() == 0 {
                                        node.end
                                    } else {
                                        args[args.len() - 1].place().end
                                    },
                                },
                                args,
                                cmd: command,
                                origin,
                            },
                            next,
                        ),
                    )
                },
            }
        }),
{
    let text = seq!['\\'] + name;
    assert(text[0] == '\\');
    assert(text.drop_first() =~= name);
}

/// `\new` and `\context` read a type and then, each where it is there, an equals sign with a name, a
/// `\with` with its block, and music. Without a type they read nothing.
pub proof fn law_a_new_context_has_a_type_and_then_what_is_there(
    run: RunView,
    i: int,
    named: bool,
    with: bool,
)
    requires
        0 <= i < run.children.len(),
        run.nodes[run.children[i] as int].kind@ == "symbol"@,
        named ==> is_punctuation(run, i + 1, '=') && argument_at(ArgKind::ContextName, run, i + 2)
            is Some && read_to(argument_at(ArgKind::ContextName, run, i + 2)) == i + 3,
        !named ==> !is_punctuation(run, i + 1, '='),
        ({
            let j = if named {
                i + 3
            } else {
                i + 1
            };
            with == (j < run.children.len() && cut_of(
                run.src,
                run.nodes[run.children[j] as int].start as int,
                run.nodes[run.children[j] as int].end as int,
            ) == "\\with"@)
        }),
        with ==> (if named {
            i + 4
        } else {
            i + 2
        }) < run.children.len(),
    ensures
        ({
            let (args, next) = new_context_arguments_at(run, i);
            let first = run.nodes[run.children[i] as int];
            let j = if named {
                i + 3
            } else {
                i + 1
            };
            let m = if with {
                j + 2
            } else {
                j
            };
            let music = argument_at(ArgKind::Music, run, m);
            let before: int = 1 + (if named {
                1int
            } else {
                0
            }) + (if with {
                1int
            } else {
                0
            });
            &&& args.len() == before + if music is Some {
                1int
            } else {
                0
            }
            &&& args[0] == (ArgView::ContextType {
                span: Span { start: first.start, end: first.end },
                name: cut_of(run.src, first.start as int, first.end as int),
            })
            &&& named ==> args[1] is Group && args[1].place().start == run.nodes[run.children[i
                + 1] as int].start && args[1]->Group_args.len() == 2 && args[1]->Group_args[1]
                == read_arg(argument_at(ArgKind::ContextName, run, i + 2))
            &&& with ==> args[before - 1] == (ArgView::Unknown {
                span: Span {
                    start: run.nodes[run.children[j] as int].start,
                    end: run.nodes[run.children[j + 1] as int].end,
                },
            })
            &&& music is Some ==> args[before] == read_arg(music) && next == read_to(music)
            &&& music is None ==> next == m
        }),
{
    lemma_marks();
}

/// `\change` reads a type, an equals sign and a name; without the sign it reads the type alone.
pub proof fn law_a_change_of_context_names_where_it_goes(run: RunView, i: int)
    requires
        0 <= i < run.children.len(),
    ensures
        ({
            let (args, next) = change_arguments_at(run, i);
            let first = run.nodes[run.children[i] as int];
            let typed = first.kind@ == "symbol"@ || first.kind@ == "assignment_lhs"@;
            let name = argument_at(ArgKind::ContextName, run, i + 2);
            &&& !typed ==> args.len() == 0 && next == i
            &&& typed ==> args.len() > 0 && args[0] == (ArgView::ContextType {
                span: Span { start: first.start, end: first.end },
                name: cut_of(run.src, first.start as int, first.end as int),
            })
            &&& typed && !is_punctuation(run, i + 1, '=') ==> args.len() == 1 && next == i + 1
            &&& typed && is_punctuation(run, i + 1, '=') && name is Some ==> args.len() == 2
                && args[1] == read_arg(name) && next == read_to(name)
            &&& typed && is_punctuation(run, i + 1, '=') && name is None ==> args.len() == 1
                && next == i + 2
        }),
{
    lemma_marks();
}

/// Whether calls come in the order of their keywords.
pub open spec fn in_keyword_order(calls: Seq<CallView>) -> bool {
    forall|i: int, j: int|
        0 <= i < j < calls.len() ==> (#[trigger] calls[i]).keyword.start <= (
        #[trigger] calls[j]).keyword.start
}

proof fn lemma_put_call(ordered: Seq<CallView>, call: CallView)
    requires
        in_keyword_order(ordered),
    ensures
        in_keyword_order(put_call(ordered, call)),
        put_call(ordered, call).to_multiset() =~= ordered.to_multiset().insert(call),
        put_call(ordered, call).len() == ordered.len() + 1,
        forall|i: int|
            0 <= i < put_call(ordered, call).len() ==> (#[trigger] put_call(ordered, call)[i]) == call
                || ordered.contains(put_call(ordered, call)[i]),
    decreases ordered.len(),
{
    broadcast use vstd::seq_lib::group_to_multiset_ensures;

    if ordered.len() > 0 {
        let front = ordered.drop_last();
        let last = ordered.last();
        assert(ordered =~= front.push(last));
        lemma_put_call(front, call);
        let rest = put_call(front, call);
        let all = put_call(ordered, call);
        if last.keyword.start > call.keyword.start {
            assert forall|i: int| 0 <= i < rest.len() implies (
            #[trigger] rest[i]).keyword.start <= last.keyword.start by {
                if rest[i] != call {
                    let j = choose|j: int| 0 <= j < front.len() && front[j] == rest[i];
                    assert(ordered[j] == front[j]);
                    assert(ordered[j].keyword.start <= ordered[ordered.len() - 1].keyword.start);
                }
            }
            assert forall|i: int| 0 <= i < all.len() implies #[trigger] all[i] == call
                || ordered.contains(all[i]) by {
                if i < rest.len() {
                    assert(all[i] == rest[i]);
                    if rest[i] != call {
                        let j = choose|j: int| 0 <= j < front.len() && front[j] == rest[i];
                        assert(ordered[j] == all[i]);
                    }
                } else {
                    assert(ordered[ordered.len() - 1] == all[i]);
                }
            }
        } else {
            assert forall|i: int| 0 <= i < all.len() implies #[trigger] all[i] == call
                || ordered.contains(all[i]) by {
                if i < ordered.len() {
                    assert(ordered[i] == all[i]);
                }
            }
        }
    } else {
        assert(put_call(ordered, call)[0] == call);
    }
}

/// Putting calls in order loses none and adds none.
pub proof fn law_calls_come_in_the_order_of_their_keywords(calls: Seq<CallView>)
    ensures
        in_keyword_order(earliest_first(calls)),
        earliest_first(calls).to_multiset() =~= calls.to_multiset(),
    decreases calls.len(),
{
    broadcast use vstd::seq_lib::group_to_multiset_ensures;

    if calls.len() > 0 {
        law_calls_come_in_the_order_of_their_keywords(calls.drop_last());
        assert(calls =~= calls.drop_last().push(calls.last()));
        lemma_put_call(earliest_first(calls.drop_last()), calls.last());
    }
}

/// Behind a call that selects a language, by its name or by its file, words are read as notes of that
/// language; behind any other call nothing about them changes.
pub proof fn law_a_language_holds_from_where_it_is_selected(
    call: CallView,
    scope: Scope,
    notes: Seq<NoteName>,
    name: Seq<char>,
)
    ensures
        !(call.cmd.behaviour is Language) ==> notes_behind(call, scope, notes) == notes,
        call.args.len() == 0 ==> notes_behind(call, scope, notes) == notes,
        call.cmd.behaviour is Language && call.args.len() > 0 && call.args[0] is String && (
        call.args[0]->String_text == name + ".ly"@ || (call.args[0]->String_text == name
            && !crate::laws::offers::ends_in_ly(name))) ==> notes_behind(call, scope, notes)
            == match language_among(scope.note_names@, name) {
            Some(language) => language.notes@,
            None => notes,
        },
{
    crate::laws::offers::lemma_file_of(name);
    if !crate::laws::offers::ends_in_ly(name) {
        crate::laws::offers::lemma_no_file(name);
    }
}

/// What is known of a context type is what its name means, and comes from the first layer that knows
/// it.
pub proof fn law_a_context_type_is_known_from_where_it_is_declared(
    layers: Seq<Arc<Layer>>,
    name: Seq<char>,
    k: int,
)
    requires
        0 <= k < layers.len(),
        type_among(layers[k].context_types@, name) is Some,
        forall|j: int|
            0 <= j < k ==> type_among((#[trigger] layers[j]).context_types@, name) is None,
    ensures
        type_in(layers, name) is Some,
        type_known(layers, name) == Some((type_in(layers, name)->0, layers[k].origin@)),
    decreases k,
{
    if k > 0 {
        let rest = layers.drop_first();
        assert(type_among(layers[0].context_types@, name) is None);
        assert(rest[k - 1] == layers[k]);
        assert forall|j: int| 0 <= j < k - 1 implies type_among(
            (#[trigger] rest[j]).context_types@,
            name,
        ) is None by {
            assert(rest[j] == layers[j + 1]);
        }
        law_a_context_type_is_known_from_where_it_is_declared(rest, name, k - 1);
    }
}

/// What is known of a context is what its name means, and comes from the first layer that knows it.
pub proof fn law_a_context_is_known_from_where_it_is_created(
    layers: Seq<Arc<Layer>>,
    name: Seq<char>,
    k: int,
)
    requires
        0 <= k < layers.len(),
        instance_among(layers[k].context_instances@, name) is Some,
        forall|j: int|
            0 <= j < k ==> instance_among((#[trigger] layers[j]).context_instances@, name) is None,
    ensures
        instance_in(layers, name) is Some,
        instance_known(layers, name) == Some((instance_in(layers, name)->0, layers[k].origin@)),
    decreases k,
{
    if k > 0 {
        let rest = layers.drop_first();
        assert(instance_among(layers[0].context_instances@, name) is None);
        assert(rest[k - 1] == layers[k]);
        assert forall|j: int| 0 <= j < k - 1 implies instance_among(
            (#[trigger] rest[j]).context_instances@,
            name,
        ) is None by {
            assert(rest[j] == layers[j + 1]);
        }
        law_a_context_is_known_from_where_it_is_created(rest, name, k - 1);
    }
}

/// Whether the insides of a node are looked into for calls: those of blocks, and of what could not be
/// parsed.
pub open spec fn may_hold_calls(node: Node) -> bool {
    node.kind@ == "expression_block"@ || node.kind@ == "parallel_music"@ || node.error
}

/// A call that starts at a node comes before what stands inside its arguments and behind it; and each
/// block on the way is looked into.
pub proof fn law_calls_are_found_where_they_start(
    ground: Ground,
    i: int,
    k: int,
    notes: Seq<NoteName>,
)
    requires
        0 <= k < children_of(ground.nodes, i).len(),
    ensures
        ({
            let row = children_of(ground.nodes, i);
            let run = RunView { nodes: ground.nodes, children: row, src: ground.src, notes };
            let found = calls_along(ground, i, k, notes).calls;
            parsed(run, k, ground.scope) is Some ==> found.len() > 0 && found[0] == call_in(
                parsed(run, k, ground.scope),
            )
        }),
        ({
            let c = children_of(ground.nodes, i)[k] as int;
            let to = children_of(ground.nodes, i).len() as int;
            let inside = calls_along(ground, c, 0, notes).calls;
            let found = calls_inside(ground, i, k, to, notes).calls;
            may_hold_calls(ground.nodes[c]) && lies_in(ground.nodes, i, c) ==> inside.len()
                <= found.len() && found.subrange(0, inside.len() as int) == inside
        }),
{
    let row = children_of(ground.nodes, i);
    let run = RunView { nodes: ground.nodes, children: row, src: ground.src, notes };
    let c = row[k] as int;
    let inside = calls_along(ground, c, 0, notes).calls;
    let found = calls_inside(ground, i, k, row.len() as int, notes).calls;
    if may_hold_calls(ground.nodes[c]) && lies_in(ground.nodes, i, c) {
        assert(found.subrange(0, inside.len() as int) =~= inside);
    }
}

/// The call that was parsed.
pub open spec fn call_in(found: Option<(CallView, int)>) -> CallView {
    match found {
        Some((call, _)) => call,
        None => arbitrary(),
    }
}

} // verus!
