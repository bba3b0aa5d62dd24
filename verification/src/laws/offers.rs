//! What is offered for the arguments of commands: contexts, note-name languages and versions.
use vstd::prelude::*;
use std::sync::Arc;
use crate::command::{Arg, CandidateView, Command, MusicContext};
use crate::command::behaviour::{
    CompletionContext, body_context, instance_candidates, internal_type, language_candidates,
    language_selected, lemma_instance_in_front, lemma_type_in_front, offered_candidates,
    text_or_nothing, type_candidates, visible_instances, visible_types, without_ly,
};
use crate::command::builtins::{curated_commands_rows, reserved_rows};
use crate::context::{ContextInstance, ContextType};
use crate::laws::commands::{
    known_function, lemma_known_row, lemma_reserved_row, offers, reserved_word,
};
use crate::note_names::NoteLanguage;
use crate::vocabulary::{Layer, instance_among, instance_in, language_among, type_among, type_in};

verus! {

/// Whether a name starts with `Internal`.
pub open spec fn is_internal(name: Seq<char>) -> bool {
    exists|rest: Seq<char>| name == #[trigger] ("Internal"@ + rest)
}

/// Whether no label stands twice.
pub open spec fn labelled_once(candidates: Seq<CandidateView>) -> bool {
    forall|i: int, j: int|
        0 <= i < j < candidates.len() ==> (#[trigger] candidates[i]).label != (
        #[trigger] candidates[j]).label
}

proof fn lemma_internal(name: Seq<char>)
    ensures
        internal_type(name) <==> is_internal(name),
{
    reveal_strlit("Internal");
    let word = "Internal"@;
    assert(word.len() == 8);
    if internal_type(name) {
        assert(name =~= word + name.subrange(8, name.len() as int));
    }
    if is_internal(name) {
        let rest = choose|rest: Seq<char>| name == #[trigger] (word + rest);
        assert(name.subrange(0, 8) =~= word);
    }
}

proof fn lemma_type_among(types: Seq<ContextType>, name: Seq<char>)
    ensures
        match type_among(types, name) {
            Some(i) => 0 <= i < types.len() && types[i].name@ == name,
            None => forall|i: int| 0 <= i < types.len() ==> (#[trigger] types[i]).name@ != name,
        },
    decreases types.len(),
{
    if types.len() > 0 {
        lemma_type_among(types.drop_last(), name);
        if type_among(types, name) is None {
            assert forall|i: int| 0 <= i < types.len() implies (#[trigger] types[i]).name@
                != name by {
                if i < types.len() - 1 {
                    assert(types.drop_last()[i] == types[i]);
                }
            }
        }
    }
}

/// Whether the type at `k` of a layer is one to offer, given the layers before.
spec fn type_shows(types: Seq<ContextType>, before: Seq<Arc<Layer>>, k: int) -> bool {
    !internal_type(types[k].name@) && type_among(types, types[k].name@) == Some(k) && type_in(
        before,
        types[k].name@,
    ) is None
}

spec fn from_type(
    types: Seq<ContextType>,
    before: Seq<Arc<Layer>>,
    m: int,
    candidate: CandidateView,
) -> bool {
    exists|k: int|
        0 <= k < m && #[trigger] type_shows(types, before, k) && candidate.label == types[k].name@
            && candidate.documentation == text_or_nothing(types[k].description)
}

proof fn lemma_type_candidates(types: Seq<ContextType>, before: Seq<Arc<Layer>>, m: int)
    requires
        0 <= m <= types.len(),
    ensures
        forall|i: int|
            0 <= i < type_candidates(types, before, m).len() ==> from_type(
                types,
                before,
                m,
                #[trigger] type_candidates(types, before, m)[i],
            ),
        forall|k: int|
            0 <= k < m && #[trigger] type_shows(types, before, k) ==> offers(
                type_candidates(types, before, m),
                types[k].name@,
            ),
        labelled_once(type_candidates(types, before, m)),
    decreases m,
{
    if m > 0 {
        lemma_type_candidates(types, before, m - 1);
        let rest = type_candidates(types, before, m - 1);
        let all = type_candidates(types, before, m);
        assert forall|i: int| 0 <= i < all.len() implies from_type(
            types,
            before,
            m,
            #[trigger] all[i],
        ) by {
            if i < rest.len() {
                assert(from_type(types, before, m - 1, rest[i]));
            } else {
                assert(type_shows(types, before, m - 1));
            }
        }
        assert forall|k: int| 0 <= k < m && #[trigger] type_shows(types, before, k) implies offers(
            all,
            types[k].name@,
        ) by {
            if k < m - 1 {
                assert(offers(rest, types[k].name@));
                let i = choose|i: int|
                    0 <= i < rest.len() && (#[trigger] rest[i]).label == types[k].name@;
                assert(all[i] == rest[i]);
            } else {
                assert(all[all.len() - 1].label == types[k].name@);
            }
        }
        assert forall|i: int, j: int| 0 <= i < j < all.len() implies (#[trigger] all[i]).label != (
        #[trigger] all[j]).label by {
            if j < rest.len() {
                assert(rest[i].label != rest[j].label);
            } else {
                assert(from_type(types, before, m - 1, rest[i]));
            }
        }
    }
}

proof fn lemma_visible_types(layers: Seq<Arc<Layer>>, n: int)
    requires
        0 <= n <= layers.len(),
    ensures
        forall|i: int|
            0 <= i < visible_types(layers, n).len() ==> {
                let found = type_in(layers, (#[trigger] visible_types(layers, n)[i]).label);
                &&& type_in(layers.subrange(0, n), visible_types(layers, n)[i].label) is Some
                &&& found is Some
                &&& !internal_type(visible_types(layers, n)[i].label)
                &&& visible_types(layers, n)[i].documentation == text_or_nothing(
                    found->0.description,
                )
            },
        forall|name: Seq<char>|
            #[trigger] type_in(layers.subrange(0, n), name) is Some && !internal_type(name)
                ==> offers(visible_types(layers, n), name),
        labelled_once(visible_types(layers, n)),
    decreases n,
{
    assert(layers.subrange(0, 0) =~= Seq::<Arc<Layer>>::empty());
    if n > 0 {
        lemma_visible_types(layers, n - 1);
        let types = layers[n - 1].context_types@;
        let before = layers.subrange(0, n - 1);
        let rest = visible_types(layers, n - 1);
        let own = type_candidates(types, before, types.len() as int);
        let all = visible_types(layers, n);
        lemma_type_candidates(types, before, types.len() as int);
        assert forall|i: int| 0 <= i < all.len() implies {
            let found = type_in(layers, (#[trigger] all[i]).label);
            &&& type_in(layers.subrange(0, n), all[i].label) is Some
            &&& found is Some
            &&& !internal_type(all[i].label)
            &&& all[i].documentation == text_or_nothing(found->0.description)
        } by {
            let name = all[i].label;
            lemma_type_in_front(layers, name, 0, n);
            lemma_type_in_front(layers, name, 0, n - 1);
            if i < rest.len() {
                assert(all[i] == rest[i]);
            } else {
                assert(all[i] == own[i - rest.len()]);
                assert(from_type(types, before, types.len() as int, own[i - rest.len()]));
                let k = choose|k: int|
                    0 <= k < types.len() && #[trigger] type_shows(types, before, k)
                        && all[i].label == types[k].name@ && all[i].documentation
                        == text_or_nothing(types[k].description);
                assert(type_among(layers[n - 1].context_types@, name) == Some(k));
                lemma_type_found(layers, name, n - 1, 0);
                assert(layers.subrange(0, layers.len() as int) =~= layers);
            }
        }
        assert forall|name: Seq<char>|
            #[trigger] type_in(layers.subrange(0, n), name) is Some && !internal_type(
                name,
            ) implies offers(all, name) by {
            lemma_type_in_front(layers, name, 0, n);
            lemma_type_in_front(layers, name, 0, n - 1);
            if type_in(before, name) is Some {
                assert(offers(rest, name));
                let i = choose|i: int| 0 <= i < rest.len() && (#[trigger] rest[i]).label == name;
                assert(all[i] == rest[i]);
            } else {
                assert(type_among(types, name) is Some);
                lemma_type_among(types, name);
                let k = type_among(types, name)->0;
                assert(type_shows(types, before, k));
                assert(offers(own, name));
                let i = choose|i: int| 0 <= i < own.len() && (#[trigger] own[i]).label == name;
                assert(all[rest.len() + i] == own[i]);
            }
        }
        assert forall|i: int, j: int| 0 <= i < j < all.len() implies (#[trigger] all[i]).label != (
        #[trigger] all[j]).label by {
            if j < rest.len() {
                assert(rest[i].label != rest[j].label);
            } else if i >= rest.len() {
                assert(own[i - rest.len()].label != own[j - rest.len()].label);
            } else {
                assert(from_type(types, before, types.len() as int, own[j - rest.len()]));
                assert(type_in(before, rest[i].label) is Some);
            }
        }
    }
}

/// The layer at `k` settles what a name is where the layers before do not know it.
proof fn lemma_type_found(layers: Seq<Arc<Layer>>, name: Seq<char>, k: int, from: int)
    requires
        0 <= from <= k < layers.len(),
        type_among(layers[k].context_types@, name) is Some,
        forall|j: int|
            from <= j < k ==> type_among((#[trigger] layers[j]).context_types@, name) is None,
    ensures
        type_in(layers.subrange(from, layers.len() as int), name) == Some(
            layers[k].context_types@[type_among(layers[k].context_types@, name)->0],
        ),
    decreases k - from,
{
    let rest = layers.subrange(from, layers.len() as int);
    assert(rest[0] == layers[from]);
    if from < k {
        assert(rest.drop_first() =~= layers.subrange(from + 1, layers.len() as int));
        lemma_type_found(layers, name, k, from + 1);
    }
}

/// For the type of a context `\new`, `\context` and `\change` offer, each once, just the names that
/// a score can use: those that mean a context type, internal ones aside. Each is documented by what
/// the name means.
pub proof fn law_every_context_type_is_offered_once(
    command: Command,
    ctx: CompletionContext,
    name: Seq<char>,
    i: int,
)
    requires
        reserved_word(command, "new"@) || reserved_word(command, "context"@) || reserved_word(
            command,
            "change"@,
        ),
    ensures
        ({
            let offered = offered_candidates(command, 0, ctx);
            &&& offers(offered, name) <==> type_in(ctx.scope.layers@, name) is Some && !is_internal(
                name,
            )
            &&& labelled_once(offered)
            &&& 0 <= i < offered.len() ==> offered[i].documentation == match type_in(
                ctx.scope.layers@,
                offered[i].label,
            )->0.description {
                Some(text) => text@,
                None => Seq::empty(),
            }
        }),
{
    let layers = ctx.scope.layers@;
    let n = layers.len() as int;
    lemma_contexts_row(command);
    assert(layers.subrange(0, n) =~= layers);
    lemma_visible_types(layers, n);
    lemma_internal(name);
    let offered = offered_candidates(command, 0, ctx);
    if offers(offered, name) {
        let k = choose|k: int| 0 <= k < offered.len() && (#[trigger] offered[k]).label == name;
        assert(visible_types(layers, n)[k].label == name);
    }
}

proof fn lemma_contexts_row(command: Command)
    requires
        reserved_word(command, "new"@) || reserved_word(command, "context"@) || reserved_word(
            command,
            "change"@,
        ),
    ensures
        command.behaviour is NewContext || command.behaviour is Change,
{
    if reserved_word(command, "new"@) {
        assert(reserved_rows()[24].name == "new"@);
        lemma_reserved_row(command, "new"@, 24);
    } else if reserved_word(command, "context"@) {
        assert(reserved_rows()[25].name == "context"@);
        lemma_reserved_row(command, "context"@, 25);
    } else {
        assert(reserved_rows()[26].name == "change"@);
        lemma_reserved_row(command, "change"@, 26);
    }
}

proof fn lemma_instance_among(instances: Seq<ContextInstance>, name: Seq<char>)
    ensures
        match instance_among(instances, name) {
            Some(i) => 0 <= i < instances.len() && instances[i].name@ == name,
            None => forall|i: int| 0 <= i < instances.len() ==> (#[trigger] instances[i]).name@ != name,
        },
    decreases instances.len(),
{
    if instances.len() > 0 {
        lemma_instance_among(instances.drop_last(), name);
        if instance_among(instances, name) is None {
            assert forall|i: int| 0 <= i < instances.len() implies (#[trigger] instances[i]).name@
                != name by {
                if i < instances.len() - 1 {
                    assert(instances.drop_last()[i] == instances[i]);
                }
            }
        }
    }
}

/// Whether the instance at `k` of a layer is one to offer, given the layers before.
spec fn instance_shows(instances: Seq<ContextInstance>, before: Seq<Arc<Layer>>, k: int) -> bool {
    instance_among(instances, instances[k].name@) == Some(k) && instance_in(
        before,
        instances[k].name@,
    ) is None
}

spec fn from_instance(
    instances: Seq<ContextInstance>,
    before: Seq<Arc<Layer>>,
    m: int,
    candidate: CandidateView,
) -> bool {
    exists|k: int|
        0 <= k < m && #[trigger] instance_shows(instances, before, k) && candidate.label == instances[k].name@
            && candidate.documentation == text_or_nothing(instances[k].created_as)
}

proof fn lemma_instance_candidates(instances: Seq<ContextInstance>, before: Seq<Arc<Layer>>, m: int)
    requires
        0 <= m <= instances.len(),
    ensures
        forall|i: int|
            0 <= i < instance_candidates(instances, before, m).len() ==> from_instance(
                instances,
                before,
                m,
                #[trigger] instance_candidates(instances, before, m)[i],
            ),
        forall|k: int|
            0 <= k < m && #[trigger] instance_shows(instances, before, k) ==> offers(
                instance_candidates(instances, before, m),
                instances[k].name@,
            ),
        labelled_once(instance_candidates(instances, before, m)),
    decreases m,
{
    if m > 0 {
        lemma_instance_candidates(instances, before, m - 1);
        let rest = instance_candidates(instances, before, m - 1);
        let all = instance_candidates(instances, before, m);
        assert forall|i: int| 0 <= i < all.len() implies from_instance(
            instances,
            before,
            m,
            #[trigger] all[i],
        ) by {
            if i < rest.len() {
                assert(from_instance(instances, before, m - 1, rest[i]));
            } else {
                assert(instance_shows(instances, before, m - 1));
            }
        }
        assert forall|k: int| 0 <= k < m && #[trigger] instance_shows(instances, before, k) implies offers(
            all,
            instances[k].name@,
        ) by {
            if k < m - 1 {
                assert(offers(rest, instances[k].name@));
                let i = choose|i: int|
                    0 <= i < rest.len() && (#[trigger] rest[i]).label == instances[k].name@;
                assert(all[i] == rest[i]);
            } else {
                assert(all[all.len() - 1].label == instances[k].name@);
            }
        }
        assert forall|i: int, j: int| 0 <= i < j < all.len() implies (#[trigger] all[i]).label != (
        #[trigger] all[j]).label by {
            if j < rest.len() {
                assert(rest[i].label != rest[j].label);
            } else {
                assert(from_instance(instances, before, m - 1, rest[i]));
            }
        }
    }
}

proof fn lemma_visible_instances(layers: Seq<Arc<Layer>>, n: int)
    requires
        0 <= n <= layers.len(),
    ensures
        forall|i: int|
            0 <= i < visible_instances(layers, n).len() ==> {
                let found = instance_in(layers, (#[trigger] visible_instances(layers, n)[i]).label);
                &&& instance_in(layers.subrange(0, n), visible_instances(layers, n)[i].label) is Some
                &&& found is Some
                &&& visible_instances(layers, n)[i].documentation == text_or_nothing(
                    found->0.created_as,
                )
            },
        forall|name: Seq<char>|
            #[trigger] instance_in(layers.subrange(0, n), name) is Some
                ==> offers(visible_instances(layers, n), name),
        labelled_once(visible_instances(layers, n)),
    decreases n,
{
    assert(layers.subrange(0, 0) =~= Seq::<Arc<Layer>>::empty());
    if n > 0 {
        lemma_visible_instances(layers, n - 1);
        let instances = layers[n - 1].context_instances@;
        let before = layers.subrange(0, n - 1);
        let rest = visible_instances(layers, n - 1);
        let own = instance_candidates(instances, before, instances.len() as int);
        let all = visible_instances(layers, n);
        lemma_instance_candidates(instances, before, instances.len() as int);
        assert forall|i: int| 0 <= i < all.len() implies {
            let found = instance_in(layers, (#[trigger] all[i]).label);
            &&& instance_in(layers.subrange(0, n), all[i].label) is Some
            &&& found is Some
            &&& all[i].documentation == text_or_nothing(found->0.created_as)
        } by {
            let name = all[i].label;
            lemma_instance_in_front(layers, name, 0, n);
            lemma_instance_in_front(layers, name, 0, n - 1);
            if i < rest.len() {
                assert(all[i] == rest[i]);
            } else {
                assert(all[i] == own[i - rest.len()]);
                assert(from_instance(instances, before, instances.len() as int, own[i - rest.len()]));
                let k = choose|k: int|
                    0 <= k < instances.len() && #[trigger] instance_shows(instances, before, k)
                        && all[i].label == instances[k].name@ && all[i].documentation
                        == text_or_nothing(instances[k].created_as);
                assert(instance_among(layers[n - 1].context_instances@, name) == Some(k));
                lemma_instance_found(layers, name, n - 1, 0);
                assert(layers.subrange(0, layers.len() as int) =~= layers);
            }
        }
        assert forall|name: Seq<char>|
            #[trigger] instance_in(layers.subrange(0, n), name) is Some implies offers(all, name) by {
            lemma_instance_in_front(layers, name, 0, n);
            lemma_instance_in_front(layers, name, 0, n - 1);
            if instance_in(before, name) is Some {
                assert(offers(rest, name));
                let i = choose|i: int| 0 <= i < rest.len() && (#[trigger] rest[i]).label == name;
                assert(all[i] == rest[i]);
            } else {
                assert(instance_among(instances, name) is Some);
                lemma_instance_among(instances, name);
                let k = instance_among(instances, name)->0;
                assert(instance_shows(instances, before, k));
                assert(offers(own, name));
                let i = choose|i: int| 0 <= i < own.len() && (#[trigger] own[i]).label == name;
                assert(all[rest.len() + i] == own[i]);
            }
        }
        assert forall|i: int, j: int| 0 <= i < j < all.len() implies (#[trigger] all[i]).label != (
        #[trigger] all[j]).label by {
            if j < rest.len() {
                assert(rest[i].label != rest[j].label);
            } else if i >= rest.len() {
                assert(own[i - rest.len()].label != own[j - rest.len()].label);
            } else {
                assert(from_instance(instances, before, instances.len() as int, own[j - rest.len()]));
                assert(instance_in(before, rest[i].label) is Some);
            }
        }
    }
}

/// The layer at `k` settles what a name is where the layers before do not know it.
proof fn lemma_instance_found(layers: Seq<Arc<Layer>>, name: Seq<char>, k: int, from: int)
    requires
        0 <= from <= k < layers.len(),
        instance_among(layers[k].context_instances@, name) is Some,
        forall|j: int|
            from <= j < k ==> instance_among((#[trigger] layers[j]).context_instances@, name) is None,
    ensures
        instance_in(layers.subrange(from, layers.len() as int), name) == Some(
            layers[k].context_instances@[instance_among(layers[k].context_instances@, name)->0],
        ),
    decreases k - from,
{
    let rest = layers.subrange(from, layers.len() as int);
    assert(rest[0] == layers[from]);
    if from < k {
        assert(rest.drop_first() =~= layers.subrange(from + 1, layers.len() as int));
        lemma_instance_found(layers, name, k, from + 1);
    }
}

/// For the name of a context `\new`, `\context`, `\change` and `\lyricsto` offer each name that an
/// instance was given, once, documented by the type that the instance was created as.
pub proof fn law_every_context_name_is_offered_once(
    command: Command,
    ctx: CompletionContext,
    name: Seq<char>,
    i: int,
)
    requires
        reserved_word(command, "new"@) || reserved_word(command, "context"@) || reserved_word(
            command,
            "change"@,
        ) || reserved_word(command, "lyricsto"@),
    ensures
        ({
            let index = if command.name@ == "lyricsto"@ { 0int } else { 1 };
            let offered = offered_candidates(command, index, ctx);
            &&& offers(offered, name) <==> instance_in(ctx.scope.layers@, name) is Some
            &&& labelled_once(offered)
            &&& 0 <= i < offered.len() ==> offered[i].documentation == match instance_in(
                ctx.scope.layers@,
                offered[i].label,
            )->0.created_as {
                Some(text) => text@,
                None => Seq::empty(),
            }
        }),
{
    let layers = ctx.scope.layers@;
    let n = layers.len() as int;
    if command.name@ == "lyricsto"@ {
        assert(reserved_rows()[27].name == "lyricsto"@);
        lemma_reserved_row(command, "lyricsto"@, 27);
    } else {
        lemma_contexts_row(command);
    }
    assert(layers.subrange(0, n) =~= layers);
    lemma_visible_instances(layers, n);
    let offered = visible_instances(layers, n);
    if offers(offered, name) {
        let k = choose|k: int| 0 <= k < offered.len() && (#[trigger] offered[k]).label == name;
        assert(instance_in(layers, offered[k].label) is Some);
    }
}

proof fn lemma_language_candidates(languages: Seq<Arc<NoteLanguage>>, n: int, k: int)
    requires
        0 <= k < n <= languages.len(),
    ensures
        language_candidates(languages, n).len() == n,
        language_candidates(languages, n)[k].label == languages[k].name@,
    decreases n,
{
    assert(language_candidates(languages, 0).len() == 0);
    if n > 1 && k < n - 1 {
        lemma_language_candidates(languages, n - 1, k);
    } else if n > 1 {
        lemma_language_candidates(languages, n - 1, 0);
    }
}

proof fn lemma_language_named(languages: Seq<Arc<NoteLanguage>>, name: Seq<char>, k: int)
    requires
        0 <= k < languages.len(),
        languages[k].name@ == name,
    ensures
        language_among(languages, name) is Some,
        language_among(languages, name)->0.name@ == name,
        (forall|j: int| 0 <= j < k ==> (#[trigger] languages[j]).name@ != name) ==> language_among(
            languages,
            name,
        ) == Some(*languages[k]),
    decreases k,
{
    if languages[0].name@ != name {
        let rest = languages.drop_first();
        assert(rest[k - 1] == languages[k]);
        lemma_language_named(rest, name, k - 1);
        if forall|j: int| 0 <= j < k ==> (#[trigger] languages[j]).name@ != name {
            assert forall|j: int| 0 <= j < k - 1 implies (#[trigger] rest[j]).name@ != name by {
                assert(languages[j + 1].name@ != name);
            }
        }
    }
}

pub proof fn lemma_file_of(base: Seq<char>)
    ensures
        without_ly(base + ".ly"@) == base,
{
    reveal_strlit(".ly");
    let text = base + ".ly"@;
    assert(".ly"@.len() == 3);
    assert(text.subrange(text.len() - 3, text.len() as int) =~= ".ly"@);
    assert(text.subrange(0, text.len() - 3) =~= base);
}

pub proof fn lemma_no_file(name: Seq<char>)
    requires
        !ends_in_ly(name),
    ensures
        without_ly(name) == name,
{
    reveal_strlit(".ly");
    assert(".ly"@.len() == 3);
    if name.len() >= 3 && name.subrange(name.len() - 3, name.len() as int) == ".ly"@ {
        assert(name =~= name.subrange(0, name.len() - 3) + ".ly"@);
    }
}

/// Whether a text is the name of a file.
pub open spec fn ends_in_ly(text: Seq<char>) -> bool {
    exists|base: Seq<char>| text == #[trigger] (base + ".ly"@)
}

/// `\language` offers the languages in order, by their names, and each name offered selects a
/// language of that name: from there on, music is read with its note names, and nothing else about
/// it changes. Naming the language's file selects the same language, and a name that no language
/// has selects none.
pub proof fn law_a_language_is_selected_by_its_name_or_its_file(
    command: Command,
    ctx: CompletionContext,
    k: int,
    name: Seq<char>,
    named: Seq<Arg>,
    filed: Seq<Arg>,
    ambient: MusicContext,
)
    requires
        known_function(command, "language"@),
        !ends_in_ly(name),
        named.len() > 0,
        filed.len() > 0,
        named[0] is String,
        named[0]->String_text@ == name,
        filed[0] is String,
        filed[0]->String_text@ == name + ".ly"@,
    ensures
        ({
            let languages = ctx.scope.note_names@;
            let offered = offered_candidates(command, 0, ctx);
            let selected = language_selected(named, *ctx.scope);
            &&& offered.len() == languages.len()
            &&& 0 <= k < languages.len() ==> offered[k].label == languages[k].name@
            &&& selected == language_selected(filed, *ctx.scope)
            &&& offers(offered, name) <==> selected is Some
            &&& selected is Some ==> selected->0.name@ == name
            &&& 0 <= k < languages.len() && languages[k].name@ == name && (forall|j: int|
                0 <= j < k ==> (#[trigger] languages[j]).name@ != name) ==> selected == Some(
                *languages[k],
            )
            &&& body_context(command, named, ambient, *ctx.scope) == match selected {
                Some(language) => MusicContext { language: Arc::new(language), ..ambient },
                None => ambient,
            }
        }),
{
    assert(curated_commands_rows()[6].name == "language"@);
    lemma_known_row(command, "language"@, 6);
    let languages = ctx.scope.note_names@;
    let n = languages.len() as int;
    let offered = offered_candidates(command, 0, ctx);
    lemma_file_of(name);
    lemma_no_file(name);
    if n > 0 {
        lemma_language_candidates(languages, n, 0);
    }
    if 0 <= k < n {
        lemma_language_candidates(languages, n, k);
        if languages[k].name@ == name {
            lemma_language_named(languages, name, k);
        }
    }
    if offers(offered, name) {
        let i = choose|i: int| 0 <= i < offered.len() && (#[trigger] offered[i]).label == name;
        lemma_language_candidates(languages, n, i);
        lemma_language_named(languages, name, i);
    }
    if language_among(languages, name) is Some {
        lemma_language_known(languages, name);
        let i = choose|i: int|
            0 <= i < languages.len() && (#[trigger] languages[i]).name@ == name;
        lemma_language_candidates(languages, n, i);
        assert(offered[i].label == name);
        lemma_language_named(languages, name, i);
    }
}

proof fn lemma_language_known(languages: Seq<Arc<NoteLanguage>>, name: Seq<char>)
    requires
        language_among(languages, name) is Some,
    ensures
        exists|i: int| 0 <= i < languages.len() && (#[trigger] languages[i]).name@ == name,
    decreases languages.len(),
{
    if languages[0].name@ != name {
        let rest = languages.drop_first();
        lemma_language_known(rest, name);
        let i = choose|i: int| 0 <= i < rest.len() && (#[trigger] rest[i]).name@ == name;
        assert(languages[i + 1].name@ == name);
    }
}

/// `\version` offers the version that is installed, where one is, and nothing else.
pub proof fn law_the_installed_version_is_offered(
    command: Command,
    ctx: CompletionContext,
    name: Seq<char>,
)
    requires
        reserved_word(command, "version"@),
    ensures
        offers(offered_candidates(command, 0, ctx), name) <==> ctx.lilypond_version is Some
            && ctx.lilypond_version->0@ == name,
        offered_candidates(command, 0, ctx).len() <= 1,
{
    assert(reserved_rows()[23].name == "version"@);
    lemma_reserved_row(command, "version"@, 23);
    let offered = offered_candidates(command, 0, ctx);
    if ctx.lilypond_version is Some {
        assert(offered[0].label == ctx.lilypond_version->0@);
    }
}

} // verus!
