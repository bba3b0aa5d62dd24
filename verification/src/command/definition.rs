//! What one file defines, as a [`Layer`] of commands.
//!
//! A name bound to music or any other value is a command that takes no arguments, so a definition
//! is a command: where `\foo` is defined and what `\foo` does are one question.
use vstd::prelude::*;
use std::sync::Arc;
use crate::command::{Behaviour, Command, Value, latest_definitions};
use crate::line_struct::Span;
use crate::text::same;
use crate::vocabulary::{Entry, Layer, distinct_entries, entry_at, lemma_entry_at};

verus! {

/// One name a file binds.
#[derive(Debug)]
pub struct Binding {
    pub name: String,
    /// The name as written.
    pub span: Span,
    /// Where the value is written, where that is known.
    pub value: Option<Span>,
    /// What `\name` calls, where the definition says what arguments it takes.
    pub command: Option<Command>,
}

impl Binding {
    /// A name bound to something with no signature of its own.
    pub fn variable(name: &str, span: Span, value: Option<Span>) -> (r: Self)
        ensures
            r.name@ == name@,
            r.span == span,
            r.value == value,
            r.command is None,
    {
        Self { name: name.to_string(), span, value, command: None }
    }
}

/// Whether `command` is a variable called `name`, with its value at `place` in `source`.
pub open spec fn is_variable(
    command: Command,
    name: Seq<char>,
    source: Seq<char>,
    place: Option<Span>,
) -> bool {
    &&& command.name@ == name
    &&& command.params@.len() == 0
    &&& command.documentation is None
    &&& command.completions@.len() == 0
    &&& match command.behaviour {
        Behaviour::Variable { value: Some(value) } => value.source@ == source && place == Some(
            value.span,
        ),
        Behaviour::Variable { value: None } => place is None,
        _ => false,
    }
}

/// Whether `command` is what a binding defines.
pub open spec fn is_definition(command: Command, binding: Binding, source: Seq<char>) -> bool {
    &&& command.definition == Some(binding.span)
    &&& match binding.command {
        Some(bound) => command == (Command {
            definition: command.definition,
            redefines: command.redefines,
            ..bound
        }),
        None => is_variable(command, binding.name@, source, binding.value),
    }
}

/// The last of `bindings` that binds `name`.
pub open spec fn last_bound(bindings: Seq<Binding>, name: Seq<char>) -> Option<int>
    decreases bindings.len(),
{
    if bindings.len() == 0 {
        None
    } else if bindings.last().name@ == name {
        Some(bindings.len() - 1)
    } else {
        last_bound(bindings.drop_last(), name)
    }
}

/// The definition that a command replaced.
pub open spec fn replaced_by(command: Command) -> Option<Command> {
    match command.redefines {
        Some(before) => Some(*before),
        None => None,
    }
}

/// Whether `found` is what `bindings` make of `name`: the last of its definitions, with the ones
/// before it hanging off it.
pub open spec fn answers(
    found: Option<Command>,
    bindings: Seq<Binding>,
    name: Seq<char>,
    source: Seq<char>,
) -> bool
    decreases bindings.len(),
{
    match last_bound(bindings, name) {
        Some(i) => {
            &&& found is Some
            &&& is_definition(found->0, bindings[i], source)
            &&& 0 <= i < bindings.len()
            &&& answers(replaced_by(found->0), bindings.subrange(0, i), name, source)
        },
        None => found is None,
    }
}

/// What a list of entries says `name` calls.
pub open spec fn called_by(entries: Seq<Entry>, name: Seq<char>) -> Option<Command> {
    match entry_at(entries, name) {
        Some(i) => Some(*entries[i].command),
        None => None,
    }
}

pub proof fn lemma_last_bound(bindings: Seq<Binding>, name: Seq<char>)
    ensures
        last_bound(bindings, name) matches Some(i) ==> 0 <= i < bindings.len()
            && bindings[i].name@ == name,
    decreases bindings.len(),
{
    if bindings.len() > 0 {
        lemma_last_bound(bindings.drop_last(), name);
    }
}

/// A binding of another name changes nothing of what `name` means.
proof fn lemma_bound_elsewhere(
    found: Option<Command>,
    bindings: Seq<Binding>,
    k: int,
    name: Seq<char>,
    source: Seq<char>,
)
    requires
        0 <= k < bindings.len(),
        bindings[k].name@ != name,
        answers(found, bindings.subrange(0, k), name, source),
    ensures
        answers(found, bindings.subrange(0, k + 1), name, source),
{
    let shorter = bindings.subrange(0, k);
    let longer = bindings.subrange(0, k + 1);
    assert(longer.drop_last() =~= shorter);
    lemma_last_bound(shorter, name);
    match last_bound(shorter, name) {
        Some(i) => {
            assert(longer.subrange(0, i) =~= shorter.subrange(0, i));
        },
        None => {},
    }
}

/// Another binding of `name` replaces the one before it.
proof fn lemma_bound_again(
    command: Command,
    bindings: Seq<Binding>,
    k: int,
    name: Seq<char>,
    source: Seq<char>,
)
    requires
        0 <= k < bindings.len(),
        bindings[k].name@ == name,
        is_definition(command, bindings[k], source),
        answers(replaced_by(command), bindings.subrange(0, k), name, source),
    ensures
        answers(Some(command), bindings.subrange(0, k + 1), name, source),
{
    let longer = bindings.subrange(0, k + 1);
    assert(longer.subrange(0, k) =~= bindings.subrange(0, k));
    assert(last_bound(longer, name) == Some(k));
}

/// Where a name stands does not change when another name's entry goes.
pub proof fn lemma_without(entries: Seq<Entry>, i: int, name: Seq<char>)
    requires
        0 <= i < entries.len(),
        distinct_entries(entries),
    ensures
        distinct_entries(entries.remove(i)),
        name != entries[i].name@ ==> called_by(entries.remove(i), name) == called_by(entries, name),
        name == entries[i].name@ ==> called_by(entries.remove(i), name) is None,
{
    let rest = entries.remove(i);
    assert forall|a: int, b: int| 0 <= a < b < rest.len() implies (#[trigger] rest[a]).name@ != (
    #[trigger] rest[b]).name@ by {
        let x = if a < i { a } else { a + 1 };
        let y = if b < i { b } else { b + 1 };
        assert(rest[a] == entries[x] && rest[b] == entries[y] && x < y);
    }
    lemma_entry_at(entries, name);
    lemma_entry_at(rest, name);
    match entry_at(rest, name) {
        Some(a) => {
            let x = if a < i { a } else { a + 1 };
            assert(rest[a] == entries[x]);
            let y = entry_at(entries, name)->0;
            assert(entries[y].name@ == name);
            if x < y {
                assert(entries[x].name@ != entries[y].name@);
            } else if y < x {
                assert(entries[y].name@ != entries[x].name@);
            }
            if name == entries[i].name@ {
                if x < i {
                    assert(entries[x].name@ != entries[i].name@);
                } else {
                    assert(entries[i].name@ != entries[x].name@);
                }
            }
        },
        None => {
            match entry_at(entries, name) {
                Some(y) => {
                    if y != i {
                        let a = if y < i { y } else { y - 1 };
                        assert(rest[a] == entries[y]);
                    }
                },
                None => {},
            }
        },
    }
}

/// An entry for a new name is found, and every other one where it was.
pub proof fn lemma_with(entries: Seq<Entry>, entry: Entry, name: Seq<char>)
    requires
        distinct_entries(entries),
        called_by(entries, entry.name@) is None,
    ensures
        distinct_entries(entries.push(entry)),
        name != entry.name@ ==> called_by(entries.push(entry), name) == called_by(entries, name),
        name == entry.name@ ==> called_by(entries.push(entry), name) == Some(*entry.command),
{
    let all = entries.push(entry);
    assert(all.drop_last() =~= entries);
    lemma_entry_at(entries, entry.name@);
    lemma_entry_at(entries, name);
}

/// The command a binding defines, as the definition that replaces `before`.
fn definition_of(binding: Binding, source: &Arc<String>, before: Option<Arc<Command>>) -> (r:
    Command)
    ensures
        is_definition(r, binding, source@),
        r.redefines == before,
{
    match binding.command {
        Some(bound) => Command {
            name: bound.name,
            params: bound.params,
            behaviour: bound.behaviour,
            documentation: bound.documentation,
            completions: bound.completions,
            definition: Some(binding.span),
            redefines: before,
        },
        None => {
            let value = match binding.value {
                Some(span) => Some(Value { source: source.clone(), span }),
                None => None,
            };
            Command {
                name: binding.name,
                params: Vec::new(),
                behaviour: Behaviour::Variable { value },
                documentation: None,
                completions: Vec::new(),
                definition: Some(binding.span),
                redefines: before,
            }
        },
    }
}

/// Takes the entry of `name` out of `entries`.
pub fn take_entry(entries: &mut Vec<Entry>, name: &str) -> (r: Option<Arc<Command>>)
    requires
        distinct_entries(old(entries)@),
    ensures
        distinct_entries(final(entries)@),
        called_by(final(entries)@, name@) is None,
        forall|other: Seq<char>|
            other != name@ ==> #[trigger] called_by(final(entries)@, other) == called_by(
                old(entries)@,
                other,
            ),
        match r {
            Some(command) => called_by(old(entries)@, name@) == Some(*command),
            None => called_by(old(entries)@, name@) is None,
        },
{
    let ghost all = entries@;
    proof {
        lemma_entry_at(all, name@);
    }
    let mut k: usize = 0;
    while k < entries.len()
        invariant
            k <= entries@.len(),
            entries@ == all,
            all == old(entries)@,
            distinct_entries(all),
            forall|j: int| 0 <= j < k ==> (#[trigger] all[j]).name@ != name@,
            match entry_at(all, name@) {
                Some(i) => 0 <= i < all.len() && all[i].name@ == name@,
                None => forall|i: int| 0 <= i < all.len() ==> (#[trigger] all[i]).name@ != name@,
            },
        decreases entries.len() - k,
    {
        if same(entries[k].name.as_str(), name) {
            let entry = entries.remove(k);
            proof {
                assert(entry == all[k as int]);
                let i = entry_at(all, name@)->0;
                if i < k {
                    assert(all[i].name@ != all[k as int].name@);
                } else if k < i {
                    assert(all[k as int].name@ != all[i].name@);
                }
                assert forall|other: Seq<char>| other != name@ implies #[trigger] called_by(
                    entries@,
                    other,
                ) == called_by(all, other) by {
                    lemma_without(all, k as int, other);
                }
                lemma_without(all, k as int, name@);
            }
            return Some(entry.command);
        }
        k = k + 1;
    }
    None
}

/// Builds a file's [`Layer`] from every name it binds, in source order.
///
/// A name bound twice keeps the last binding, the one LilyPond itself resolves to, with the one it
/// replaced hanging off it. `source` is the text the bindings were read from, shared and not
/// copied; `origin` is what to call that file; `id` tells the layer from every other one.
pub fn layer(bindings: Vec<Binding>, source: Arc<String>, origin: Arc<String>, id: u64) -> (r:
    Layer)
    ensures
        r.wf(),
        forall|name: Seq<char>| #[trigger]
            answers(r.lookup(name), bindings@, name, source@),
        r.origin@ == origin@,
        r.context_types@.len() == 0,
        r.context_instances@.len() == 0,
        r.id == id,
{
    let ghost all = bindings@;
    let mut commands: Vec<Entry> = Vec::new();
    for binding in it: bindings
        invariant
            it.seq() == all,
            distinct_entries(commands@),
            forall|name: Seq<char>| #[trigger]
                answers(
                    called_by(commands@, name),
                    all.subrange(0, it.index() as int),
                    name,
                    source@,
                ),
    {
        let ghost k = it.index() as int;
        let ghost before = commands@;
        let ghost bound = binding;
        let name = binding.name.clone();
        let replaced = take_entry(&mut commands, name.as_str());
        let ghost without = commands@;
        let command = definition_of(binding, &source, replaced);
        let entry = Entry { name, command: Arc::new(command) };
        commands.push(entry);
        proof {
            assert forall|other: Seq<char>| #[trigger]
                answers(
                    called_by(commands@, other),
                    all.subrange(0, k + 1),
                    other,
                    source@,
                ) by {
                lemma_with(without, entry, other);
                assert(answers(called_by(before, other), all.subrange(0, k), other, source@));
                if other == name@ {
                    lemma_bound_again(command, all, k, other, source@);
                } else {
                    assert(called_by(without, other) == called_by(before, other));
                    lemma_bound_elsewhere(called_by(before, other), all, k, other, source@);
                }
            }
            lemma_with(without, entry, name@);
        }
    }
    assert(all.subrange(0, all.len() as int) =~= all);
    let r = Layer {
        origin,
        commands,
        context_types: Vec::new(),
        context_instances: Vec::new(),
        id,
    };
    assert forall|name: Seq<char>| #[trigger] answers(r.lookup(name), bindings@, name, source@) by {
        assert(r.lookup(name) == called_by(commands@, name));
        assert(answers(
            called_by(commands@, name),
            all.subrange(0, all.len() as int),
            name,
            source@,
        ));
    }
    r
}

/// Where `bindings` bind `name`, in source order.
pub open spec fn bound_spans(bindings: Seq<Binding>, name: Seq<char>) -> Seq<Span>
    decreases bindings.len(),
{
    if bindings.len() == 0 {
        Seq::empty()
    } else if bindings.last().name@ == name {
        bound_spans(bindings.drop_last(), name).push(bindings.last().span)
    } else {
        bound_spans(bindings.drop_last(), name)
    }
}

proof fn lemma_bound_spans_below(bindings: Seq<Binding>, name: Seq<char>)
    ensures
        match last_bound(bindings, name) {
            Some(i) => 0 <= i < bindings.len() && bound_spans(bindings, name) == bound_spans(
                bindings.subrange(0, i),
                name,
            ).push(bindings[i].span),
            None => bound_spans(bindings, name).len() == 0,
        },
    decreases bindings.len(),
{
    if bindings.len() > 0 {
        let shorter = bindings.drop_last();
        if bindings.last().name@ == name {
            assert(bindings.subrange(0, bindings.len() - 1) =~= shorter);
        } else {
            lemma_bound_spans_below(shorter, name);
            match last_bound(shorter, name) {
                Some(i) => {
                    assert(bindings.subrange(0, i) =~= shorter.subrange(0, i));
                },
                None => {},
            }
        }
    }
}

/// Everywhere a file binds a name is kept, in source order, whichever binding answers for it.
pub proof fn law_every_definition_is_kept_in_source_order(
    found: Command,
    bindings: Seq<Binding>,
    name: Seq<char>,
    source: Seq<char>,
)
    requires
        answers(Some(found), bindings, name, source),
    ensures
        latest_definitions(found).reverse() == bound_spans(bindings, name),
    decreases bindings.len(),
{
    lemma_bound_spans_below(bindings, name);
    let i = last_bound(bindings, name)->0;
    let earlier = bindings.subrange(0, i);
    assert(answers(replaced_by(found), earlier, name, source));
    match replaced_by(found) {
        Some(before) => {
            law_every_definition_is_kept_in_source_order(before, earlier, name, source);
            assert(latest_definitions(found) == seq![bindings[i].span] + latest_definitions(
                before,
            ));
            assert((seq![bindings[i].span] + latest_definitions(before)).reverse()
                =~= latest_definitions(before).reverse().push(bindings[i].span));
        },
        None => {
            lemma_bound_spans_below(earlier, name);
            assert(bound_spans(earlier, name) =~= Seq::empty());
            assert(latest_definitions(found) =~= seq![bindings[i].span]);
            assert(latest_definitions(found).reverse() =~= bound_spans(bindings, name));
        },
    }
}

/// A name is known exactly where something binds it, and the last binding of it answers.
pub proof fn law_the_last_binding_wins(
    found: Option<Command>,
    bindings: Seq<Binding>,
    name: Seq<char>,
    source: Seq<char>,
)
    requires
        answers(found, bindings, name, source),
    ensures
        found is Some <==> exists|i: int|
            0 <= i < bindings.len() && (#[trigger] bindings[i]).name@ == name,
        found is Some ==> exists|i: int|
            0 <= i < bindings.len() && (#[trigger] bindings[i]).name@ == name && is_definition(
                found->0,
                bindings[i],
                source,
            ) && forall|j: int| i < j < bindings.len() ==> (#[trigger] bindings[j]).name@ != name,
{
    lemma_last_bound_is_last(bindings, name);
    if found is Some {
        let i = last_bound(bindings, name)->0;
        assert(bindings[i].name@ == name);
    }
}

proof fn lemma_last_bound_is_last(bindings: Seq<Binding>, name: Seq<char>)
    ensures
        match last_bound(bindings, name) {
            Some(i) => 0 <= i < bindings.len() && bindings[i].name@ == name && forall|j: int|
                i < j < bindings.len() ==> (#[trigger] bindings[j]).name@ != name,
            None => forall|j: int|
                0 <= j < bindings.len() ==> (#[trigger] bindings[j]).name@ != name,
        },
    decreases bindings.len(),
{
    if bindings.len() > 0 {
        let shorter = bindings.drop_last();
        lemma_last_bound_is_last(shorter, name);
        assert forall|j: int| 0 <= j < bindings.len() - 1 implies #[trigger] bindings[j]
            == shorter[j] by {}
    }
}

} // verus!
