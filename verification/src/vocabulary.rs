//! What names mean: layers of knowledge, and the scope that stacks them.
use vstd::prelude::*;
use vstd::string::StrSliceExecFns;
use std::sync::Arc;
use crate::command::Command;
use crate::command::scheme::name_views;
use crate::context::{ContextInstance, ContextType};
use crate::note_names::NoteLanguage;
use crate::text::{chars_of, same, trim, trimmed};

verus! {

/// One name of a layer and what it calls.
#[derive(Debug)]
pub struct Entry {
    pub name: String,
    pub command: Arc<Command>,
}

/// What one source of knowledge (a file, the installation, this library) defines. A name stands at
/// most once in each of its lists.
#[derive(Debug)]
pub struct Layer {
    /// What to call the source.
    pub origin: Arc<String>,
    pub commands: Vec<Entry>,
    pub context_types: Vec<ContextType>,
    pub context_instances: Vec<ContextInstance>,
    /// Tells this layer from every other one.
    pub id: u64,
}

/// The layers a document can see, those that win first, and the note-name languages it can select.
#[derive(Debug)]
pub struct Scope {
    pub layers: Vec<Arc<Layer>>,
    pub note_names: Vec<Arc<NoteLanguage>>,
}

/// Where among `entries` the name `name` stands.
pub open spec fn entry_at(entries: Seq<Entry>, name: Seq<char>) -> Option<int>
    decreases entries.len(),
{
    if entries.len() == 0 {
        None
    } else if entries.last().name@ == name {
        Some(entries.len() - 1)
    } else {
        entry_at(entries.drop_last(), name)
    }
}

/// No name stands twice.
pub open spec fn distinct_entries(entries: Seq<Entry>) -> bool {
    forall|i: int, j: int|
        0 <= i < j < entries.len() ==> (#[trigger] entries[i]).name@ != (
        #[trigger] entries[j]).name@
}

pub proof fn lemma_entry_at(entries: Seq<Entry>, name: Seq<char>)
    ensures
        match entry_at(entries, name) {
            Some(i) => 0 <= i < entries.len() && entries[i].name@ == name,
            None => forall|i: int| 0 <= i < entries.len() ==> (#[trigger] entries[i]).name@ != name,
        },
    decreases entries.len(),
{
    if entries.len() > 0 {
        lemma_entry_at(entries.drop_last(), name);
        if entry_at(entries, name) is None {
            assert forall|i: int| 0 <= i < entries.len() implies (#[trigger] entries[i]).name@
                != name by {
                if i < entries.len() - 1 {
                    assert(entries.drop_last()[i] == entries[i]);
                }
            }
        }
    }
}

impl Layer {
    pub open spec fn wf(self) -> bool {
        distinct_entries(self.commands@)
    }

    pub open spec fn lookup(self, name: Seq<char>) -> Option<Command> {
        match entry_at(self.commands@, name) {
            Some(i) => Some(*self.commands@[i].command),
            None => None,
        }
    }

    /// What `\name` calls in this layer.
    pub fn get(&self, name: &str) -> (r: Option<Arc<Command>>)
        ensures
            match r {
                Some(command) => self.lookup(name@) == Some(*command),
                None => self.lookup(name@) is None,
            },
    {
        let mut k: usize = self.commands.len();
        assert(self.commands@.subrange(0, k as int) =~= self.commands@);
        while k > 0
            invariant
                k <= self.commands@.len(),
                entry_at(self.commands@, name@) == entry_at(
                    self.commands@.subrange(0, k as int),
                    name@,
                ),
            decreases k,
        {
            let ghost front = self.commands@.subrange(0, k as int);
            assert(front.drop_last() =~= self.commands@.subrange(0, k - 1));
            if same(self.commands[k - 1].name.as_str(), name) {
                return Some(self.commands[k - 1].command.clone());
            }
            k = k - 1;
        }
        None
    }

    pub open spec fn defines_nothing(self) -> bool {
        &&& self.commands@.len() == 0
        &&& self.context_types@.len() == 0
        &&& self.context_instances@.len() == 0
    }

    /// Whether the layer defines nothing at all.
    pub fn is_empty(&self) -> (r: bool)
        ensures
            r == self.defines_nothing(),
    {
        self.commands.len() == 0 && self.context_types.len() == 0 && self.context_instances.len()
            == 0
    }

    /// How many commands the layer defines.
    pub fn len(&self) -> (r: usize)
        ensures
            r == self.commands@.len(),
    {
        self.commands.len()
    }
}

/// What `\name` calls in the first of `layers` that knows it, and that layer's origin.
pub open spec fn lookup_in(layers: Seq<Arc<Layer>>, name: Seq<char>) -> Option<(Command, Seq<char>)>
    decreases layers.len(),
{
    if layers.len() == 0 {
        None
    } else {
        match layers[0].lookup(name) {
            Some(command) => Some((command, layers[0].origin@)),
            None => lookup_in(layers.drop_first(), name),
        }
    }
}

/// The context type `name` among `types`, the last where several are.
pub open spec fn type_among(types: Seq<ContextType>, name: Seq<char>) -> Option<int>
    decreases types.len(),
{
    if types.len() == 0 {
        None
    } else if types.last().name@ == name {
        Some(types.len() - 1)
    } else {
        type_among(types.drop_last(), name)
    }
}

/// The context type `name` in the first of `layers` that knows it.
pub open spec fn type_in(layers: Seq<Arc<Layer>>, name: Seq<char>) -> Option<ContextType>
    decreases layers.len(),
{
    if layers.len() == 0 {
        None
    } else {
        match type_among(layers[0].context_types@, name) {
            Some(i) => Some(layers[0].context_types@[i]),
            None => type_in(layers.drop_first(), name),
        }
    }
}

/// The language called `name`.
pub open spec fn language_among(languages: Seq<Arc<NoteLanguage>>, name: Seq<char>) -> Option<NoteLanguage>
    decreases languages.len(),
{
    if languages.len() == 0 {
        None
    } else if languages[0].name@ == name {
        Some(*languages[0])
    } else {
        language_among(languages.drop_first(), name)
    }
}

impl Scope {
    /// What `\name` calls, and the origin of the layer that says so.
    pub fn get(&self, name: &str) -> (r: Option<(Arc<Command>, Arc<String>)>)
        ensures
            match r {
                Some((command, origin)) => lookup_in(self.layers@, name@) == Some(
                    (*command, origin@),
                ),
                None => lookup_in(self.layers@, name@) is None,
            },
    {
        let mut k: usize = 0;
        assert(self.layers@.subrange(0, self.layers@.len() as int) =~= self.layers@);
        while k < self.layers.len()
            invariant
                k <= self.layers@.len(),
                lookup_in(self.layers@, name@) == lookup_in(
                    self.layers@.subrange(k as int, self.layers@.len() as int),
                    name@,
                ),
            decreases self.layers.len() - k,
        {
            assert(self.layers@.subrange(k as int, self.layers@.len() as int).drop_first()
                =~= self.layers@.subrange(k + 1, self.layers@.len() as int));
            match self.layers[k].get(name) {
                Some(command) => {
                    return Some((command, self.layers[k].origin.clone()));
                },
                None => {},
            }
            k = k + 1;
        }
        None
    }

    /// Whether some layer knows `\name`.
    pub fn is_known(&self, name: &str) -> (r: bool)
        ensures
            r == (lookup_in(self.layers@, name@) is Some),
    {
        self.get(name).is_some()
    }

    /// The context type called `name`.
    pub fn get_context_type(&self, name: &str) -> (r: Option<&ContextType>)
        ensures
            match r {
                Some(found) => type_in(self.layers@, name@) == Some(*found),
                None => type_in(self.layers@, name@) is None,
            },
    {
        let mut k: usize = 0;
        assert(self.layers@.subrange(0, self.layers@.len() as int) =~= self.layers@);
        while k < self.layers.len()
            invariant
                k <= self.layers@.len(),
                type_in(self.layers@, name@) == type_in(
                    self.layers@.subrange(k as int, self.layers@.len() as int),
                    name@,
                ),
            decreases self.layers.len() - k,
        {
            assert(self.layers@.subrange(k as int, self.layers@.len() as int).drop_first()
                =~= self.layers@.subrange(k + 1, self.layers@.len() as int));
            match find_type(&self.layers[k].context_types, name) {
                Some(i) => {
                    return Some(&self.layers[k].context_types[i]);
                },
                None => {},
            }
            k = k + 1;
        }
        None
    }

    /// The note-name language called `name`.
    pub fn language(&self, name: &str) -> (r: Option<Arc<NoteLanguage>>)
        ensures
            match r {
                Some(found) => language_among(self.note_names@, name@) == Some(*found),
                None => language_among(self.note_names@, name@) is None,
            },
    {
        let mut k: usize = 0;
        assert(self.note_names@.subrange(0, self.note_names@.len() as int) =~= self.note_names@);
        while k < self.note_names.len()
            invariant
                k <= self.note_names@.len(),
                language_among(self.note_names@, name@) == language_among(
                    self.note_names@.subrange(k as int, self.note_names@.len() as int),
                    name@,
                ),
            decreases self.note_names.len() - k,
        {
            assert(self.note_names@.subrange(k as int, self.note_names@.len() as int).drop_first()
                =~= self.note_names@.subrange(k + 1, self.note_names@.len() as int));
            if same(self.note_names[k].name.as_str(), name) {
                return Some(self.note_names[k].clone());
            }
            k = k + 1;
        }
        None
    }
}

/// Where among `types` the context type `name` stands.
pub fn find_type(types: &Vec<ContextType>, name: &str) -> (r: Option<usize>)
    ensures
        match r {
            Some(i) => type_among(types@, name@) == Some(i as int) && i < types@.len(),
            None => type_among(types@, name@) is None,
        },
{
    let mut k: usize = types.len();
    assert(types@.subrange(0, k as int) =~= types@);
    while k > 0
        invariant
            k <= types@.len(),
            type_among(types@, name@) == type_among(types@.subrange(0, k as int), name@),
        decreases k,
    {
        assert(types@.subrange(0, k as int).drop_last() =~= types@.subrange(0, k - 1));
        if same(types[k - 1].name.as_str(), name) {
            return Some(k - 1);
        }
        k = k - 1;
    }
    None
}

/// The context instance `name` among `instances`, the last where several are.
pub open spec fn instance_among(instances: Seq<ContextInstance>, name: Seq<char>) -> Option<int>
    decreases instances.len(),
{
    if instances.len() == 0 {
        None
    } else if instances.last().name@ == name {
        Some(instances.len() - 1)
    } else {
        instance_among(instances.drop_last(), name)
    }
}

/// The context instance `name` in the first of `layers` that knows it.
pub open spec fn instance_in(layers: Seq<Arc<Layer>>, name: Seq<char>) -> Option<ContextInstance>
    decreases layers.len(),
{
    if layers.len() == 0 {
        None
    } else {
        match instance_among(layers[0].context_instances@, name) {
            Some(i) => Some(layers[0].context_instances@[i]),
            None => instance_in(layers.drop_first(), name),
        }
    }
}

/// Where among `instances` the instance `name` stands.
pub fn find_instance(instances: &Vec<ContextInstance>, name: &str) -> (r: Option<usize>)
    ensures
        match r {
            Some(i) => instance_among(instances@, name@) == Some(i as int) && i
                < instances@.len(),
            None => instance_among(instances@, name@) is None,
        },
{
    let mut k: usize = instances.len();
    assert(instances@.subrange(0, k as int) =~= instances@);
    while k > 0
        invariant
            k <= instances@.len(),
            instance_among(instances@, name@) == instance_among(
                instances@.subrange(0, k as int),
                name@,
            ),
        decreases k,
    {
        assert(instances@.subrange(0, k as int).drop_last() =~= instances@.subrange(0, k - 1));
        if same(instances[k - 1].name.as_str(), name) {
            return Some(k - 1);
        }
        k = k - 1;
    }
    None
}

impl Scope {
    /// The context instance called `name`.
    pub fn get_context_instance(&self, name: &str) -> (r: Option<&ContextInstance>)
        ensures
            match r {
                Some(found) => instance_in(self.layers@, name@) == Some(*found),
                None => instance_in(self.layers@, name@) is None,
            },
    {
        let mut k: usize = 0;
        assert(self.layers@.subrange(0, self.layers@.len() as int) =~= self.layers@);
        while k < self.layers.len()
            invariant
                k <= self.layers@.len(),
                instance_in(self.layers@, name@) == instance_in(
                    self.layers@.subrange(k as int, self.layers@.len() as int),
                    name@,
                ),
            decreases self.layers.len() - k,
        {
            assert(self.layers@.subrange(k as int, self.layers@.len() as int).drop_first()
                =~= self.layers@.subrange(k + 1, self.layers@.len() as int));
            match find_instance(&self.layers[k].context_instances, name) {
                Some(i) => {
                    return Some(&self.layers[k].context_instances[i]);
                },
                None => {},
            }
            k = k + 1;
        }
        None
    }
}

/// The word that a line of a word list holds: a backslash and its name, with white space around it.
pub open spec fn word_on(line: Seq<char>) -> Seq<Seq<char>> {
    let word = trimmed(line);
    if word.len() > 0 && word[0] == '\\' {
        seq![word.subrange(1, word.len() as int)]
    } else {
        Seq::empty()
    }
}

/// The line break that `text` holds at or after `from`.
pub open spec fn line_break(text: Seq<char>, from: int) -> int
    decreases text.len() - from,
{
    if from >= text.len() || text[from] == '\n' {
        from
    } else {
        line_break(text, from + 1)
    }
}

/// The words that a word list names from `from` on, line by line.
pub open spec fn words_from(text: Seq<char>, from: int) -> Seq<Seq<char>>
    decreases text.len() + 1 - from,
    via words_from_decreases
{
    if from > text.len() {
        Seq::empty()
    } else {
        let end = line_break(text, from);
        word_on(text.subrange(from, end)) + words_from(text, end + 1)
    }
}

#[via_fn]
proof fn words_from_decreases(text: Seq<char>, from: int) {
    if from <= text.len() {
        lemma_line_break(text, from);
    }
}

pub proof fn lemma_line_break(text: Seq<char>, from: int)
    requires
        from <= text.len(),
    ensures
        from <= line_break(text, from) <= text.len(),
    decreases text.len() - from,
{
    if from < text.len() && text[from] != '\n' {
        lemma_line_break(text, from + 1);
    }
}

/// The words that a word list names.
pub open spec fn words_of(text: Seq<char>) -> Seq<Seq<char>> {
    words_from(text, 0)
}

/// The names on a list of words like LilyPond's own: one `\name` on a line, other lines aside.
pub fn listed_words(text: &str) -> (r: Vec<String>)
    ensures
        name_views(r@) == words_of(text@),
{
    let chars = chars_of(text);
    let n = chars.len();
    let mut out: Vec<String> = Vec::new();
    let mut from: usize = 0;
    let mut end: usize = 0;
    assert(name_views(out@) =~= Seq::empty());
    while end < n
        invariant
            chars@ == text@,
            n == chars@.len(),
            from <= end <= n,
            name_views(out@) + words_from(text@, from as int) == words_of(text@),
            line_break(text@, from as int) == line_break(text@, end as int),
        decreases n - end,
    {
        if chars[end] == '\n' {
            let ghost before = name_views(out@);
            let line = text.substring_char(from, end);
            add_word(line, &mut out);
            assert(before + (word_on(line@) + words_from(text@, end + 1)) =~= (before + word_on(
                line@,
            )) + words_from(text@, end + 1));
            from = end + 1;
        }
        end = end + 1;
    }
    let ghost before = name_views(out@);
    let line = text.substring_char(from, n);
    add_word(line, &mut out);
    proof {
        assert(words_from(text@, n + 1) =~= Seq::empty());
        assert(before + (word_on(line@) + words_from(text@, n + 1)) =~= before + word_on(line@));
    }
    out
}

/// Adds the word on a line, if it holds one.
fn add_word(line: &str, out: &mut Vec<String>)
    ensures
        name_views(final(out)@) == name_views(old(out)@) + word_on(line@),
{
    let ghost before = name_views(out@);
    let word = trim(line);
    let chars = chars_of(word);
    if chars.len() > 0 && chars[0] == '\\' {
        let name = word.substring_char(1, chars.len()).to_string();
        out.push(name);
        assert(name_views(out@) =~= before + seq![name@]);
    } else {
        assert(name_views(out@) =~= before + Seq::<Seq<char>>::empty());
    }
}

} // verus!
