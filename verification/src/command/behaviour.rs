//! What commands do beyond reading their arguments: how their bodies are read, what is offered for
//! their arguments, and what is wrong with a call.
use vstd::prelude::*;
use vstd::string::{StrSliceExecFns, StringExecFns};
use std::sync::Arc;
use crate::command::calls::{CheckContext, complaint};
use crate::command::{
    Arg, Behaviour, Candidate, CandidateView, Command, CommandCall, MusicContext, NoteEntry, Region,
    candidate_views,
};
use crate::context::{ContextInstance, ContextType};
use crate::note_names::{NoteLanguage, naturals_listed};
use crate::notes::Pitch;
use crate::protocol::{Diagnostic, DiagnosticView, Severity, diagnostic_views};
use crate::text::same;
use crate::vocabulary::{
    Layer, Scope, find_instance, find_type, instance_among, instance_in, language_among,
    type_among, type_in,
};

verus! {

/// The first pitch among `args`.
pub open spec fn first_pitch(args: Seq<Arg>) -> Option<Pitch>
    decreases args.len(),
{
    if args.len() == 0 {
        None
    } else {
        match args[0] {
            Arg::Pitch { pitch, .. } => Some(pitch),
            _ => first_pitch(args.drop_first()),
        }
    }
}

/// The first context type named among `args`.
pub open spec fn first_context_type(args: Seq<Arg>) -> Option<Seq<char>>
    decreases args.len(),
{
    if args.len() == 0 {
        None
    } else {
        match args[0] {
            Arg::ContextType { name, .. } => Some(name@),
            _ => first_context_type(args.drop_first()),
        }
    }
}

fn find_pitch(args: &Vec<Arg>) -> (r: Option<Pitch>)
    ensures
        r == first_pitch(args@),
{
    let mut k: usize = 0;
    assert(args@.subrange(0, args@.len() as int) =~= args@);
    while k < args.len()
        invariant
            k <= args@.len(),
            first_pitch(args@) == first_pitch(args@.subrange(k as int, args@.len() as int)),
        decreases args.len() - k,
    {
        assert(args@.subrange(k as int, args@.len() as int).drop_first() =~= args@.subrange(
            k + 1,
            args@.len() as int,
        ));
        match &args[k] {
            Arg::Pitch { pitch, .. } => {
                return Some(*pitch);
            },
            _ => {},
        }
        k = k + 1;
    }
    None
}

fn find_context_type(args: &Vec<Arg>) -> (r: Option<&str>)
    ensures
        match r {
            Some(name) => first_context_type(args@) == Some(name@),
            None => first_context_type(args@) is None,
        },
{
    let mut k: usize = 0;
    assert(args@.subrange(0, args@.len() as int) =~= args@);
    while k < args.len()
        invariant
            k <= args@.len(),
            first_context_type(args@) == first_context_type(
                args@.subrange(k as int, args@.len() as int),
            ),
        decreases args.len() - k,
    {
        assert(args@.subrange(k as int, args@.len() as int).drop_first() =~= args@.subrange(
            k + 1,
            args@.len() as int,
        ));
        match &args[k] {
            Arg::ContextType { name, .. } => {
                return Some(name.as_str());
            },
            _ => {},
        }
        k = k + 1;
    }
    None
}

/// What a context type that holds no notes is read as.
pub open spec fn root_region(name: Seq<char>) -> Option<Region> {
    if name == "Lyrics"@ {
        Some(Region::Lyrics)
    } else if name == "NullVoice"@ || name == "ChordNames"@ || name == "FretBoards"@ || name
        == "FiguredBass"@ || name == "Dynamics"@ || name == "DrumStaff"@ || name == "DrumVoice"@ {
        Some(Region::NonNote)
    } else {
        None
    }
}

fn region_of_root(name: &str) -> (r: Option<Region>)
    ensures
        r == root_region(name@),
{
    if same(name, "Lyrics") {
        Some(Region::Lyrics)
    } else if same(name, "NullVoice") || same(name, "ChordNames") || same(name, "FretBoards")
        || same(name, "FiguredBass") || same(name, "Dynamics") || same(name, "DrumStaff") || same(
        name,
        "DrumVoice",
    ) {
        Some(Region::NonNote)
    } else {
        None
    }
}

/// What the first of `aliases` that is such a type is read as.
pub open spec fn alias_region(aliases: Seq<String>) -> Option<Region>
    decreases aliases.len(),
{
    if aliases.len() == 0 {
        None
    } else {
        match root_region(aliases[0]@) {
            Some(region) => Some(region),
            None => alias_region(aliases.drop_first()),
        }
    }
}

fn region_of_aliases(aliases: &Vec<String>) -> (r: Option<Region>)
    ensures
        r == alias_region(aliases@),
{
    let mut k: usize = 0;
    assert(aliases@.subrange(0, aliases@.len() as int) =~= aliases@);
    while k < aliases.len()
        invariant
            k <= aliases@.len(),
            alias_region(aliases@) == alias_region(
                aliases@.subrange(k as int, aliases@.len() as int),
            ),
        decreases aliases.len() - k,
    {
        assert(aliases@.subrange(k as int, aliases@.len() as int).drop_first() =~= aliases@.subrange(
            k + 1,
            aliases@.len() as int,
        ));
        match region_of_root(aliases[k].as_str()) {
            Some(region) => {
                return Some(region);
            },
            None => {},
        }
        k = k + 1;
    }
    None
}

/// What the body of a context of type `name` is read as, where it holds no notes: as its own type
/// says, or as one it is an alias of.
pub open spec fn context_region(name: Seq<char>, scope: Scope) -> Option<Region> {
    match type_in(scope.layers@, name) {
        Some(found) => match root_region(found.name@) {
            Some(region) => Some(region),
            None => alias_region(found.aliases@),
        },
        None => root_region(name),
    }
}

/// What the body of a context of type `name` is read as, where it holds no notes.
pub fn region_of_context(name: &str, scope: &Scope) -> (r: Option<Region>)
    ensures
        r == context_region(name@, *scope),
{
    match scope.get_context_type(name) {
        Some(found) => match region_of_root(found.name.as_str()) {
            Some(region) => Some(region),
            None => region_of_aliases(&found.aliases),
        },
        None => region_of_root(name),
    }
}

/// Whether a context of type `name` holds no notes.
pub fn is_non_note(name: &str, scope: &Scope) -> (r: bool)
    ensures
        r == (context_region(name@, *scope) is Some),
{
    region_of_context(name, scope).is_some()
}

/// `text` without the suffix `.ly`.
pub open spec fn without_ly(text: Seq<char>) -> Seq<char> {
    if text.len() >= 3 && text.subrange(text.len() - 3, text.len() as int) == ".ly"@ {
        text.subrange(0, text.len() - 3)
    } else {
        text
    }
}

fn strip_ly(text: &str) -> (r: &str)
    ensures
        r@ == without_ly(text@),
{
    let n = text.unicode_len();
    if n >= 3 && same(text.substring_char(n - 3, n), ".ly") {
        text.substring_char(0, n - 3)
    } else {
        text
    }
}

/// The language that a call selects, if its first argument names one.
pub open spec fn language_selected(args: Seq<Arg>, scope: Scope) -> Option<NoteLanguage> {
    if args.len() == 0 {
        None
    } else {
        match args[0] {
            Arg::String { text, .. } => language_among(scope.note_names@, without_ly(text@)),
            _ => None,
        }
    }
}

/// The note-name language a call selects.
pub fn selected(call: &CommandCall, scope: &Scope) -> (r: Option<Arc<NoteLanguage>>)
    ensures
        match r {
            Some(language) => language_selected(call.args@, *scope) == Some(*language),
            None => language_selected(call.args@, *scope) is None,
        },
{
    if call.args.len() == 0 {
        return None;
    }
    match &call.args[0] {
        Arg::String { text, .. } => scope.language(strip_ly(text.as_str())),
        _ => None,
    }
}

/// The pitch `\relative` resolves against where none is written: middle C.
pub open spec fn middle_c() -> Pitch {
    Pitch { note_name: 0, octave: 0, alteration: 0 }
}

/// The context that a call's body is read in.
pub open spec fn body_context(
    command: Command,
    args: Seq<Arg>,
    ambient: MusicContext,
    scope: Scope,
) -> MusicContext {
    match command.behaviour {
        Behaviour::Static { entry, region } => {
            let established = match entry {
                Some(entry) => ambient.entering(entry),
                None => ambient,
            };
            match region {
                Some(region) => established.in_region(region),
                None => established,
            }
        },
        Behaviour::Relative => ambient.entering(
            NoteEntry::Relative(
                match first_pitch(args) {
                    Some(pitch) => pitch,
                    None => middle_c(),
                },
            ),
        ),
        Behaviour::Fixed => ambient.entering(
            NoteEntry::Fixed(
                match first_pitch(args) {
                    Some(pitch) => pitch.octave,
                    None => -1i32,
                },
            ),
        ),
        Behaviour::Lyricsto => ambient.in_region(Region::Lyrics),
        Behaviour::NewContext => match first_context_type(args) {
            Some(name) => match context_region(name, scope) {
                Some(region) => ambient.in_region(region),
                None => ambient,
            },
            None => ambient,
        },
        Behaviour::Language { .. } => match language_selected(args, scope) {
            Some(language) => ambient.speaking(language),
            None => ambient,
        },
        _ => ambient,
    }
}

impl Command {
    /// The context that a call's body is read in.
    pub fn music_context(&self, call: &CommandCall, ambient: MusicContext, scope: &Scope) -> (r:
        MusicContext)
        ensures
            r == body_context(*self, call.args@, ambient, *scope),
    {
        match &self.behaviour {
            Behaviour::Static { entry, region } => {
                let established = match entry {
                    Some(entry) => ambient.with_entry(*entry),
                    None => ambient,
                };
                match region {
                    Some(region) => established.with_region(*region),
                    None => established,
                }
            },
            Behaviour::Relative => {
                let reference = match find_pitch(&call.args) {
                    Some(pitch) => pitch,
                    None => Pitch { note_name: 0, octave: 0, alteration: 0 },
                };
                ambient.with_entry(NoteEntry::Relative(reference))
            },
            Behaviour::Fixed => {
                let octave: i32 = match find_pitch(&call.args) {
                    Some(pitch) => pitch.octave,
                    None => -1,
                };
                ambient.with_entry(NoteEntry::Fixed(octave))
            },
            Behaviour::Lyricsto => ambient.with_region(Region::Lyrics),
            Behaviour::NewContext => match find_context_type(&call.args) {
                Some(name) => match region_of_context(name, scope) {
                    Some(region) => ambient.with_region(region),
                    None => ambient,
                },
                None => ambient,
            },
            Behaviour::Language { .. } => match selected(call, scope) {
                Some(language) => ambient.with_language(language),
                None => ambient,
            },
            _ => ambient,
        }
    }
}

/// Whether a command's body is read in a concrete event stream, given that the music around the call
/// is.
pub proof fn law_bodies_are_event_streams(
    command: Command,
    args: Seq<Arg>,
    ambient: MusicContext,
    scope: Scope,
)
    requires
        ambient.region !is NoteContext,
        !(command.behaviour matches Behaviour::Static { region: Some(Region::NoteContext), .. }),
    ensures
        body_context(command, args, ambient, scope).region !is NoteContext,
{
    match first_context_type(args) {
        Some(name) => match type_in(scope.layers@, name) {
            Some(found) => lemma_alias_region(found.aliases@),
            None => {},
        },
        None => {},
    }
}

proof fn lemma_alias_region(aliases: Seq<String>)
    ensures
        alias_region(aliases) matches Some(region) ==> region is Lyrics || region is NonNote,
    decreases aliases.len(),
{
    if aliases.len() > 0 {
        lemma_alias_region(aliases.drop_first());
    }
}

/// Whether `kind` is a kind of repeat.
pub open spec fn repeat_kind(kind: Seq<char>) -> bool {
    kind == "volta"@ || kind == "unfold"@ || kind == "percent"@ || kind == "tremolo"@ || kind
        == "segno"@
}

fn is_repeat_kind(kind: &str) -> (r: bool)
    ensures
        r == repeat_kind(kind@),
{
    same(kind, "volta") || same(kind, "unfold") || same(kind, "percent") || same(kind, "tremolo")
        || same(kind, "segno")
}

/// What is said of a kind of repeat that is none.
pub open spec fn wrong_kind(text: Seq<char>) -> Seq<char> {
    "`"@ + text
        + "` is not a `\\repeat` kind LilyPond recognises; expected one of `volta`, `unfold`, `percent`, `tremolo` or `segno`"@
}

/// What is wrong with a call.
pub open spec fn findings(command: Command, args: Seq<Arg>, bytes: Seq<u8>) -> Seq<
    DiagnosticView,
> {
    match command.behaviour {
        Behaviour::Repeat => {
            let kind = if args.len() > 0 {
                match args[0] {
                    Arg::BareWord { span, text } => if repeat_kind(text@) {
                        Seq::empty()
                    } else {
                        seq![complaint(bytes, span, Severity::Error, wrong_kind(text@))]
                    },
                    _ => Seq::empty(),
                }
            } else {
                Seq::empty()
            };
            let count = if args.len() > 1 {
                match args[1] {
                    Arg::Count { span, value } => if value == 0 {
                        seq![
                            complaint(
                                bytes,
                                span,
                                Severity::Error,
                                "a `\\repeat` count of 0 repeats its music zero times; use a count of at least 1"@,
                            ),
                        ]
                    } else {
                        Seq::empty()
                    },
                    _ => Seq::empty(),
                }
            } else {
                Seq::empty()
            };
            kind + count
        },
        _ => Seq::empty(),
    }
}

impl Command {
    /// What is wrong with a call of this command.
    pub fn check(&self, call: &CommandCall, ctx: &CheckContext) -> (r: Vec<Diagnostic>)
        requires
            ctx.wf(),
        ensures
            diagnostic_views(r@) == findings(*self, call.args@, ctx.lines.bytes()),
    {
        let mut out: Vec<Diagnostic> = Vec::new();
        assert(diagnostic_views(out@) =~= Seq::empty());
        if !matches!(self.behaviour, Behaviour::Repeat) {
            return out;
        }
        if call.args.len() > 0 {
            match &call.args[0] {
                Arg::BareWord { span, text } => {
                    if !is_repeat_kind(text.as_str()) {
                        let mut message = "`".to_string();
                        message.append(text.as_str());
                        message.append(
                            "` is not a `\\repeat` kind LilyPond recognises; expected one of `volta`, `unfold`, `percent`, `tremolo` or `segno`",
                        );
                        let found = ctx.error(*span, message);
                        out.push(found);
                        assert(diagnostic_views(out@) =~= seq![found@]);
                    }
                },
                _ => {},
            }
        }
        let ghost kind = diagnostic_views(out@);
        if call.args.len() > 1 {
            match &call.args[1] {
                Arg::Count { span, value } => {
                    if *value == 0 {
                        let message = "a `\\repeat` count of 0 repeats its music zero times; use a count of at least 1";
                        let found = ctx.error(*span, message.to_string());
                        out.push(found);
                        assert(diagnostic_views(out@) =~= kind + seq![found@]);
                    }
                },
                _ => {},
            }
        }
        assert(diagnostic_views(out@) =~= findings(*self, call.args@, ctx.lines.bytes()));
        out
    }
}

/// Whether `name` is an internal context type: a base that others inherit from, and that no score
/// names.
pub open spec fn internal_type(name: Seq<char>) -> bool {
    name.len() >= 8 && name.subrange(0, 8) == "Internal"@
}

pub fn is_internal_context_type(name: &str) -> (r: bool)
    ensures
        r == internal_type(name@),
{
    name.unicode_len() >= 8 && same(name.substring_char(0, 8), "Internal")
}

/// The text of an optional one, or nothing.
pub open spec fn text_or_nothing(text: Option<String>) -> Seq<char> {
    match text {
        Some(text) => text@,
        None => Seq::empty(),
    }
}

fn text_or_empty(text: &Option<String>) -> (r: String)
    ensures
        r@ == text_or_nothing(*text),
{
    match text {
        Some(text) => text.clone(),
        None => String::new(),
    }
}

/// The candidates that the first `m` context types of a layer make: those that are not internal, are
/// not hidden by one of the same name later in the layer, and are unknown to the layers before.
pub open spec fn type_candidates(types: Seq<ContextType>, before: Seq<Arc<Layer>>, m: int) -> Seq<
    CandidateView,
>
    decreases m,
{
    if m <= 0 {
        Seq::empty()
    } else {
        let rest = type_candidates(types, before, m - 1);
        let found = types[m - 1];
        if !internal_type(found.name@) && type_among(types, found.name@) == Some(m - 1) && type_in(
            before,
            found.name@,
        ) is None {
            rest.push(
                CandidateView {
                    label: found.name@,
                    documentation: text_or_nothing(found.description),
                },
            )
        } else {
            rest
        }
    }
}

/// The candidates that the context types of the first `n` layers make.
pub open spec fn visible_types(layers: Seq<Arc<Layer>>, n: int) -> Seq<CandidateView>
    decreases n,
{
    if n <= 0 {
        Seq::empty()
    } else {
        let types = layers[n - 1].context_types@;
        visible_types(layers, n - 1) + type_candidates(
            types,
            layers.subrange(0, n - 1),
            types.len() as int,
        )
    }
}

/// The candidates that the first `m` context instances of a layer make.
pub open spec fn instance_candidates(
    instances: Seq<ContextInstance>,
    before: Seq<Arc<Layer>>,
    m: int,
) -> Seq<CandidateView>
    decreases m,
{
    if m <= 0 {
        Seq::empty()
    } else {
        let rest = instance_candidates(instances, before, m - 1);
        let found = instances[m - 1];
        if instance_among(instances, found.name@) == Some(m - 1) && instance_in(before, found.name@)
            is None {
            rest.push(
                CandidateView {
                    label: found.name@,
                    documentation: text_or_nothing(found.created_as),
                },
            )
        } else {
            rest
        }
    }
}

/// The candidates that the context instances of the first `n` layers make.
pub open spec fn visible_instances(layers: Seq<Arc<Layer>>, n: int) -> Seq<CandidateView>
    decreases n,
{
    if n <= 0 {
        Seq::empty()
    } else {
        let instances = layers[n - 1].context_instances@;
        visible_instances(layers, n - 1) + instance_candidates(
            instances,
            layers.subrange(0, n - 1),
            instances.len() as int,
        )
    }
}

pub proof fn lemma_type_in_front(layers: Seq<Arc<Layer>>, name: Seq<char>, k: int, n: int)
    requires
        0 <= k <= n <= layers.len(),
    ensures
        type_in(layers.subrange(k, n), name) is None <==> forall|j: int|
            k <= j < n ==> type_among((#[trigger] layers[j]).context_types@, name) is None,
    decreases n - k,
{
    if k < n {
        lemma_type_in_front(layers, name, k + 1, n);
        assert(layers.subrange(k, n).drop_first() =~= layers.subrange(k + 1, n));
        assert(layers.subrange(k, n)[0] == layers[k]);
    }
}

fn known_type_before(layers: &Vec<Arc<Layer>>, name: &str, n: usize) -> (r: bool)
    requires
        n <= layers@.len(),
    ensures
        r == (type_in(layers@.subrange(0, n as int), name@) is Some),
{
    proof {
        lemma_type_in_front(layers@, name@, 0, n as int);
    }
    let mut k: usize = 0;
    while k < n
        invariant
            k <= n <= layers@.len(),
            forall|j: int|
                0 <= j < k ==> type_among((#[trigger] layers@[j]).context_types@, name@) is None,
            type_in(layers@.subrange(0, n as int), name@) is None <==> forall|j: int|
                0 <= j < n ==> type_among((#[trigger] layers@[j]).context_types@, name@) is None,
        decreases n - k,
    {
        if find_type(&layers[k].context_types, name).is_some() {
            assert(type_among(layers@[k as int].context_types@, name@) is Some);
            return true;
        }
        k = k + 1;
    }
    false
}

pub proof fn lemma_instance_in_front(layers: Seq<Arc<Layer>>, name: Seq<char>, k: int, n: int)
    requires
        0 <= k <= n <= layers.len(),
    ensures
        instance_in(layers.subrange(k, n), name) is None <==> forall|j: int|
            k <= j < n ==> instance_among((#[trigger] layers[j]).context_instances@, name) is None,
    decreases n - k,
{
    if k < n {
        lemma_instance_in_front(layers, name, k + 1, n);
        assert(layers.subrange(k, n).drop_first() =~= layers.subrange(k + 1, n));
        assert(layers.subrange(k, n)[0] == layers[k]);
    }
}

fn known_instance_before(layers: &Vec<Arc<Layer>>, name: &str, n: usize) -> (r: bool)
    requires
        n <= layers@.len(),
    ensures
        r == (instance_in(layers@.subrange(0, n as int), name@) is Some),
{
    proof {
        lemma_instance_in_front(layers@, name@, 0, n as int);
    }
    let mut k: usize = 0;
    while k < n
        invariant
            k <= n <= layers@.len(),
            forall|j: int|
                0 <= j < k ==> instance_among(
                    (#[trigger] layers@[j]).context_instances@,
                    name@,
                ) is None,
            instance_in(layers@.subrange(0, n as int), name@) is None <==> forall|j: int|
                0 <= j < n ==> instance_among(
                    (#[trigger] layers@[j]).context_instances@,
                    name@,
                ) is None,
        decreases n - k,
    {
        if find_instance(&layers[k].context_instances, name).is_some() {
            assert(instance_among(layers@[k as int].context_instances@, name@) is Some);
            return true;
        }
        k = k + 1;
    }
    false
}

fn push_types(layers: &Vec<Arc<Layer>>, n: usize, out: &mut Vec<Candidate>)
    requires
        n < layers@.len(),
    ensures
        ({
            let types = layers@[n as int].context_types@;
            candidate_views(final(out)@) == candidate_views(old(out)@) + type_candidates(
                types,
                layers@.subrange(0, n as int),
                types.len() as int,
            )
        }),
{
    let types = &layers[n].context_types;
    let ghost before = candidate_views(out@);
    let ghost front = layers@.subrange(0, n as int);
    let mut m: usize = 0;
    assert(before + type_candidates(types@, front, 0) =~= before);
    while m < types.len()
        invariant
            n < layers@.len(),
            types@ == layers@[n as int].context_types@,
            m <= types@.len(),
            front == layers@.subrange(0, n as int),
            candidate_views(out@) == before + type_candidates(types@, front, m as int),
        decreases types.len() - m,
    {
        let found = &types[m];
        let name = found.name.as_str();
        let is_last = match find_type(types, name) {
            Some(i) => i == m,
            None => false,
        };
        if !is_internal_context_type(name) && is_last && !known_type_before(layers, name, n) {
            let ghost last = candidate_views(out@);
            let candidate = Candidate {
                label: found.name.clone(),
                documentation: text_or_empty(&found.description),
            };
            out.push(candidate);
            assert(candidate_views(out@) =~= last.push(candidate@));
            assert(candidate_views(out@) =~= before + type_candidates(types@, front, m + 1));
        }
        m = m + 1;
    }
}

fn push_instances(layers: &Vec<Arc<Layer>>, n: usize, out: &mut Vec<Candidate>)
    requires
        n < layers@.len(),
    ensures
        ({
            let instances = layers@[n as int].context_instances@;
            candidate_views(final(out)@) == candidate_views(old(out)@) + instance_candidates(
                instances,
                layers@.subrange(0, n as int),
                instances.len() as int,
            )
        }),
{
    let instances = &layers[n].context_instances;
    let ghost before = candidate_views(out@);
    let ghost front = layers@.subrange(0, n as int);
    let mut m: usize = 0;
    assert(before + instance_candidates(instances@, front, 0) =~= before);
    while m < instances.len()
        invariant
            n < layers@.len(),
            instances@ == layers@[n as int].context_instances@,
            m <= instances@.len(),
            front == layers@.subrange(0, n as int),
            candidate_views(out@) == before + instance_candidates(instances@, front, m as int),
        decreases instances.len() - m,
    {
        let found = &instances[m];
        let name = found.name.as_str();
        let is_last = match find_instance(instances, name) {
            Some(i) => i == m,
            None => false,
        };
        if is_last && !known_instance_before(layers, name, n) {
            let ghost last = candidate_views(out@);
            let candidate = Candidate {
                label: found.name.clone(),
                documentation: text_or_empty(&found.created_as),
            };
            out.push(candidate);
            assert(candidate_views(out@) =~= last.push(candidate@));
            assert(candidate_views(out@) =~= before + instance_candidates(
                instances@,
                front,
                m + 1,
            ));
        }
        m = m + 1;
    }
}

/// Every context type `scope` can see that is worth offering, documented with its description where
/// it has one.
pub fn context_type_candidates(scope: &Scope) -> (r: Vec<Candidate>)
    ensures
        candidate_views(r@) == visible_types(scope.layers@, scope.layers@.len() as int),
{
    let mut out: Vec<Candidate> = Vec::new();
    let mut n: usize = 0;
    assert(candidate_views(out@) =~= Seq::empty());
    while n < scope.layers.len()
        invariant
            n <= scope.layers@.len(),
            candidate_views(out@) == visible_types(scope.layers@, n as int),
        decreases scope.layers.len() - n,
    {
        push_types(&scope.layers, n, &mut out);
        n = n + 1;
    }
    out
}

/// Every context instance name `scope` can see, documented with the context type it was created as
/// where one was recorded.
pub fn context_instance_candidates(scope: &Scope) -> (r: Vec<Candidate>)
    ensures
        candidate_views(r@) == visible_instances(scope.layers@, scope.layers@.len() as int),
{
    let mut out: Vec<Candidate> = Vec::new();
    let mut n: usize = 0;
    assert(candidate_views(out@) =~= Seq::empty());
    while n < scope.layers.len()
        invariant
            n <= scope.layers@.len(),
            candidate_views(out@) == visible_instances(scope.layers@, n as int),
        decreases scope.layers.len() - n,
    {
        push_instances(&scope.layers, n, &mut out);
        n = n + 1;
    }
    out
}

/// The candidates that the first `n` note-name languages make.
pub open spec fn language_candidates(languages: Seq<Arc<NoteLanguage>>, n: int) -> Seq<CandidateView>
    decreases n,
{
    if n <= 0 {
        Seq::empty()
    } else {
        language_candidates(languages, n - 1).push(
            CandidateView {
                label: languages[n - 1].name@,
                documentation: "Note names: "@ + naturals_listed(languages[n - 1].notes@, 7)
                    + "."@,
            },
        )
    }
}

fn offered_languages(scope: &Scope) -> (r: Vec<Candidate>)
    ensures
        candidate_views(r@) == language_candidates(
            scope.note_names@,
            scope.note_names@.len() as int,
        ),
{
    let mut out: Vec<Candidate> = Vec::new();
    let mut n: usize = 0;
    assert(candidate_views(out@) =~= Seq::empty());
    while n < scope.note_names.len()
        invariant
            n <= scope.note_names@.len(),
            candidate_views(out@) == language_candidates(scope.note_names@, n as int),
        decreases scope.note_names.len() - n,
    {
        let ghost before = candidate_views(out@);
        let mut documentation = "Note names: ".to_string();
        documentation.append(scope.note_names[n].naturals().as_str());
        documentation.append(".");
        let candidate = Candidate { label: scope.note_names[n].name.clone(), documentation };
        out.push(candidate);
        assert(candidate_views(out@) =~= before.push(candidate@));
        n = n + 1;
    }
    out
}

/// What a command may consult when asked for completions: the installed version, where one is known,
/// and the scope of the document.
pub struct CompletionContext<'a> {
    pub lilypond_version: Option<&'a str>,
    pub scope: &'a Scope,
}

/// What a row of candidates for an argument position offers.
pub open spec fn listed_candidates(completions: Seq<Vec<Candidate>>, index: int) -> Seq<
    CandidateView,
> {
    if index < completions.len() {
        candidate_views(completions[index]@)
    } else {
        Seq::empty()
    }
}

/// What a command offers for the argument at `index`.
pub open spec fn offered_candidates(command: Command, index: int, ctx: CompletionContext) -> Seq<
    CandidateView,
> {
    let layers = ctx.scope.layers@;
    let n = layers.len() as int;
    match command.behaviour {
        Behaviour::NewContext => if index == 0 {
            visible_types(layers, n)
        } else if index == 1 {
            visible_instances(layers, n)
        } else {
            listed_candidates(command.completions@, index)
        },
        Behaviour::Change => if index == 0 {
            visible_types(layers, n)
        } else if index == 1 {
            visible_instances(layers, n)
        } else {
            listed_candidates(command.completions@, index)
        },
        Behaviour::Lyricsto => if index == 0 {
            visible_instances(layers, n)
        } else {
            listed_candidates(command.completions@, index)
        },
        Behaviour::Version => match ctx.lilypond_version {
            Some(version) => if index == 0 {
                seq![
                    CandidateView {
                        label: version@,
                        documentation: "The version of LilyPond you have installed."@,
                    },
                ]
            } else {
                Seq::empty()
            },
            None => Seq::empty(),
        },
        Behaviour::Language { offers_names } => if offers_names && index == 0 {
            language_candidates(ctx.scope.note_names@, ctx.scope.note_names@.len() as int)
        } else {
            Seq::empty()
        },
        _ => listed_candidates(command.completions@, index),
    }
}

fn listed(completions: &Vec<Vec<Candidate>>, index: usize) -> (r: Vec<Candidate>)
    ensures
        candidate_views(r@) == listed_candidates(completions@, index as int),
{
    let mut out: Vec<Candidate> = Vec::new();
    assert(candidate_views(out@) =~= Seq::empty());
    if index < completions.len() {
        let row = &completions[index];
        let mut k: usize = 0;
        while k < row.len()
            invariant
                k <= row@.len(),
                candidate_views(out@) == candidate_views(row@).subrange(0, k as int),
            decreases row.len() - k,
        {
            let ghost before = candidate_views(out@);
            let candidate = row[k].copy();
            out.push(candidate);
            assert(candidate_views(out@) =~= before.push(candidate@));
            assert(candidate_views(row@).subrange(0, k + 1) =~= candidate_views(row@).subrange(
                0,
                k as int,
            ).push(row@[k as int]@));
            k = k + 1;
        }
        assert(candidate_views(row@).subrange(0, k as int) =~= candidate_views(row@));
    }
    out
}

impl Command {
    /// What to offer for the argument at `index`.
    pub fn completions(&self, index: usize, ctx: &CompletionContext) -> (r: Vec<Candidate>)
        ensures
            candidate_views(r@) == offered_candidates(*self, index as int, *ctx),
    {
        match &self.behaviour {
            Behaviour::NewContext => if index == 0 {
                context_type_candidates(ctx.scope)
            } else if index == 1 {
                context_instance_candidates(ctx.scope)
            } else {
                listed(&self.completions, index)
            },
            Behaviour::Change => if index == 0 {
                context_type_candidates(ctx.scope)
            } else if index == 1 {
                context_instance_candidates(ctx.scope)
            } else {
                listed(&self.completions, index)
            },
            Behaviour::Lyricsto => if index == 0 {
                context_instance_candidates(ctx.scope)
            } else {
                listed(&self.completions, index)
            },
            Behaviour::Version => {
                let mut out: Vec<Candidate> = Vec::new();
                assert(candidate_views(out@) =~= Seq::empty());
                match ctx.lilypond_version {
                    Some(version) => {
                        if index == 0 {
                            let candidate = Candidate::new(
                                version,
                                "The version of LilyPond you have installed.",
                            );
                            out.push(candidate);
                            assert(candidate_views(out@) =~= seq![candidate@]);
                        }
                    },
                    None => {},
                }
                out
            },
            Behaviour::Language { offers_names } => if *offers_names && index == 0 {
                offered_languages(ctx.scope)
            } else {
                let out: Vec<Candidate> = Vec::new();
                assert(candidate_views(out@) =~= Seq::empty());
                out
            },
            _ => listed(&self.completions, index),
        }
    }
}

} // verus!
