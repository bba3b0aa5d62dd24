//! The commands this library knows by itself.
//!
//! Reserved words are recognised by LilyPond's own grammar, and no file can rebind them. Curated
//! commands are ordinary music functions that LilyPond defines, with a better signature than can be
//! read out of their definitions; a file that binds such a name itself means its own.
use vstd::prelude::*;
use std::sync::Arc;
use crate::command::{
    ArgKind, Behaviour, Candidate, CandidateView, Command, KindView, NoteEntry, Param, ParamView,
    Region, candidate_views, lemma_param_views_push, param_view, param_views,
};
use crate::vocabulary::{Entry, Layer};

verus! {

/// Hover text for `\alternative`.
pub const ALTERNATIVE_DOC: &'static str = "Supplies the alternate endings for an enclosing `\\repeat volta` or `\\repeat segno`: one `{ … }` block per ending, in order, inside `music`.";

/// Hover text for `\volta`.
pub const VOLTA_DOC: &'static str = "Marks `music` as belonging to volta (numbered ending) `numbers`, inside an enclosing `\\repeat`.";

/// Hover text for `\tempo`.
pub const TEMPO_DOC: &'static str = "Sets the tempo. `\\tempo \"Allegro\" 4=120` Either argument may be omitted.";

/// Hover text for `\clef`.
pub const CLEF_DOC: &'static str = "Sets the staff's clef to `name` (`treble`, `bass`, `alto`, `tenor`, `percussion`, …).";

/// Hover text for `\key`.
pub const KEY_DOC: &'static str = "Sets the key signature to `tonic` in `mode` (e.g. `\\major`)";

/// Hover text for `\transpose`.
pub const TRANSPOSE_DOC: &'static str = "Transposes `music` so that the pitch written as `from` sounds as `to`, shifting every pitch in `music` by the same interval.";

/// Hover text for `\new`.
pub const NEW_DOC: &'static str = "Creates a fresh `type` context and interprets `music` in it, even if a context of the same type and name already exists. The optional `name` identifies this instance, for `\\lyricsto`, `\\change` and a later `\\context` to refer back to. May be followed by a `\\with { … }` block.";

/// Hover text for `\context`.
pub const CONTEXT_DOC: &'static str = "Finds the existing `type` context, optionally the one called `name`, in the enclosing music and interprets `music` in it, creating one only if none is found — unlike `\\new`, which always creates a fresh context. May be followed by a `\\with { … }` block. Inside a `\\layout` block, `\\context { … }` instead defines or modifies a context type rather than instantiating one.";

/// Hover text for `\change`.
pub const CHANGE_DOC: &'static str = "Moves the music that follows into an already-existing context of `type` named `name` — unlike `\\new`, which always creates a fresh context, or `\\context`, which creates one only if none is found. `name` refers back to an instance a `\\new` or `\\context` elsewhere named.";

/// Hover text for `\lyricsto`.
pub const LYRICSTO_DOC: &'static str = "Aligns the lyrics in `music` under the notes of `voice` — the instance name a `\\new`/`\\context` elsewhere gave a `Voice`, e.g. `\\lyricsto \"vocals\" { … }`. Without `voice`, aligns under the nearest preceding `Voice` in the same simultaneous music instead.";

/// Hover text for `\language`.
pub const LANGUAGE_DOC: &'static str = "Selects the note names pitches are written in for the rest of the file — `\\language \"english\"` for `cs`/`ef` rather than the default Dutch `cis`/`ees`. Including the matching file (`\\include \"english.ly\"`) does the same thing.";

/// Hover text for `\version`.
pub const VERSION_DOC: &'static str = "Declares the LilyPond version this file is written for. `convert-ly` reads it to know which conversions to apply, so it is the first line of every score.";

/// Hover text for `\relative`.
pub const RELATIVE_DOC: &'static str = "Reads `music` with octaves written relative to the previous note: each note is placed in the octave closest to the one before it, starting from `reference` (middle C if omitted).";

/// Hover text for `\fixed`.
pub const FIXED_DOC: &'static str = "Reads `music` with a fixed reference octave: an unmarked note sits in the same octave as `reference`, and octave marks (`'`, `,`) shift from there.";

/// Hover text for `\repeat`.
pub const REPEAT_DOC: &'static str = "Repeats `music` `count` times, using `kind` to say how: `volta` for numbered alternate endings (with a following `\\alternative` supplying them), `unfold` to write the repeat out in full, `percent` for a percent (simile) repeat sign, `tremolo` for a tremolo repeat, or `segno` for a volta-shaped repeat marked with segno/coda signs and D.S./D.C. markup instead of numbered brackets.";

/// What hover calls these layers.
pub const OURS: &'static str = "built-in";

/// What one built-in command is.
pub struct TableRow {
    pub name: Seq<char>,
    pub params: Seq<ParamView>,
    pub behaviour: Behaviour,
    pub documentation: Option<Seq<char>>,
    pub completions: Seq<Seq<CandidateView>>,
}

/// What each of a run of rows of candidates says.
pub open spec fn completion_views(completions: Seq<Vec<Candidate>>) -> Seq<Seq<CandidateView>> {
    completions.map_values(|row: Vec<Candidate>| candidate_views(row@))
}

/// Whether a command is the one a row describes.
pub open spec fn is_row(command: Command, row: TableRow) -> bool {
    &&& command.name@ == row.name
    &&& param_views(command.params@) == row.params
    &&& command.behaviour == row.behaviour
    &&& match command.documentation {
        Some(text) => row.documentation == Some(text@),
        None => row.documentation is None,
    }
    &&& completion_views(command.completions@) == row.completions
    &&& command.definition is None
    &&& command.redefines is None
}

/// Whether a list of commands is the one a list of rows describes.
pub open spec fn are_rows(entries: Seq<Entry>, rows: Seq<TableRow>) -> bool {
    entries.len() == rows.len() && forall|k: int|
        0 <= k < entries.len() ==> (#[trigger] entries[k]).name@ == rows[k].name && is_row(
            *entries[k].command,
            rows[k],
        )
}

/// No two rows of a table are of the same name.
pub open spec fn distinct_rows(rows: Seq<TableRow>) -> bool {
    forall|i: int, j: int|
        0 <= i < j < rows.len() ==> (#[trigger] rows[i]).name != (#[trigger] rows[j]).name
}

#[verifier::spinoff_prover]
#[verifier::rlimit(60)]
pub proof fn lemma_reserved_distinct()
    ensures
        distinct_rows(reserved_rows()),
{
    reveal_strlit("alternative");
    reveal_strlit("notemode");
    reveal_strlit("notes");
    reveal_strlit("chordmode");
    reveal_strlit("chords");
    reveal_strlit("drummode");
    reveal_strlit("drums");
    reveal_strlit("figuremode");
    reveal_strlit("figures");
    reveal_strlit("lyricmode");
    reveal_strlit("lyrics");
    reveal_strlit("addlyrics");
    reveal_strlit("markup");
    reveal_strlit("markuplist");
    reveal_strlit("header");
    reveal_strlit("paper");
    reveal_strlit("layout");
    reveal_strlit("midi");
    reveal_strlit("with");
    reveal_strlit("set");
    reveal_strlit("unset");
    reveal_strlit("tempo");
    reveal_strlit("repeat");
    reveal_strlit("version");
    reveal_strlit("new");
    reveal_strlit("context");
    reveal_strlit("change");
    reveal_strlit("lyricsto");
    reveal_strlit("include");
    assert("alternative"@.len() == 11);
    assert("notemode"@.len() == 8 && "notemode"@[0] == 'n');
    assert("notes"@.len() == 5 && "notes"@[0] == 'n');
    assert("chordmode"@.len() == 9 && "chordmode"@[0] == 'c');
    assert("chords"@.len() == 6 && "chords"@[0] == 'c' && "chords"@[2] == 'o');
    assert("drummode"@.len() == 8 && "drummode"@[0] == 'd');
    assert("drums"@.len() == 5 && "drums"@[0] == 'd');
    assert("figuremode"@.len() == 10 && "figuremode"@[0] == 'f');
    assert("figures"@.len() == 7 && "figures"@[0] == 'f');
    assert("lyricmode"@.len() == 9 && "lyricmode"@[0] == 'l');
    assert("lyrics"@.len() == 6 && "lyrics"@[0] == 'l' && "lyrics"@[1] == 'y');
    assert("addlyrics"@.len() == 9 && "addlyrics"@[0] == 'a');
    assert("markup"@.len() == 6 && "markup"@[0] == 'm');
    assert("markuplist"@.len() == 10 && "markuplist"@[0] == 'm');
    assert("header"@.len() == 6 && "header"@[0] == 'h');
    assert("paper"@.len() == 5 && "paper"@[0] == 'p');
    assert("layout"@.len() == 6 && "layout"@[0] == 'l' && "layout"@[1] == 'a');
    assert("midi"@.len() == 4 && "midi"@[0] == 'm');
    assert("with"@.len() == 4 && "with"@[0] == 'w');
    assert("set"@.len() == 3 && "set"@[0] == 's');
    assert("unset"@.len() == 5 && "unset"@[0] == 'u');
    assert("tempo"@.len() == 5 && "tempo"@[0] == 't');
    assert("repeat"@.len() == 6 && "repeat"@[0] == 'r');
    assert("version"@.len() == 7 && "version"@[0] == 'v');
    assert("new"@.len() == 3 && "new"@[0] == 'n');
    assert("context"@.len() == 7 && "context"@[0] == 'c');
    assert("change"@.len() == 6 && "change"@[0] == 'c' && "change"@[2] == 'a');
    assert("lyricsto"@.len() == 8 && "lyricsto"@[0] == 'l');
    assert("include"@.len() == 7 && "include"@[0] == 'i');
}

#[verifier::spinoff_prover]
#[verifier::rlimit(60)]
pub proof fn lemma_curated_commands_distinct()
    ensures
        distinct_rows(curated_commands_rows()),
{
    reveal_strlit("volta");
    reveal_strlit("clef");
    reveal_strlit("key");
    reveal_strlit("transpose");
    reveal_strlit("relative");
    reveal_strlit("fixed");
    reveal_strlit("language");
    assert("volta"@.len() == 5 && "volta"@[0] == 'v');
    assert("clef"@.len() == 4);
    assert("key"@.len() == 3);
    assert("transpose"@.len() == 9);
    assert("relative"@.len() == 8 && "relative"@[0] == 'r');
    assert("fixed"@.len() == 5 && "fixed"@[0] == 'f');
    assert("language"@.len() == 8 && "language"@[0] == 'l');
}

/// A parameter that must be there.
pub open spec fn needed(name: Seq<char>, kind: KindView) -> ParamView {
    ParamView { name, kind, optional: false }
}

/// A parameter that may be left out.
pub open spec fn allowed(name: Seq<char>, kind: KindView) -> ParamView {
    ParamView { name, kind, optional: true }
}

fn one(a: Param) -> (r: Vec<Param>)
    ensures
        param_views(r@) == seq![param_view(a)],
{
    let mut out: Vec<Param> = Vec::new();
    assert(param_views(out@) =~= Seq::empty());
    proof {
        lemma_param_views_push(out@, a);
    }
    out.push(a);
    assert(param_views(out@) =~= seq![param_view(a)]);
    out
}

fn two(a: Param, b: Param) -> (r: Vec<Param>)
    ensures
        param_views(r@) == seq![param_view(a), param_view(b)],
{
    let mut out = one(a);
    proof {
        lemma_param_views_push(out@, b);
    }
    out.push(b);
    assert(param_views(out@) =~= seq![param_view(a), param_view(b)]);
    out
}

fn three(a: Param, b: Param, c: Param) -> (r: Vec<Param>)
    ensures
        param_views(r@) == seq![param_view(a), param_view(b), param_view(c)],
{
    let mut out = two(a, b);
    proof {
        lemma_param_views_push(out@, c);
    }
    out.push(c);
    assert(param_views(out@) =~= seq![param_view(a), param_view(b), param_view(c)]);
    out
}

fn four(a: Param, b: Param, c: Param, d: Param) -> (r: Vec<Param>)
    ensures
        param_views(r@) == seq![param_view(a), param_view(b), param_view(c), param_view(d)],
{
    let mut out = three(a, b, c);
    proof {
        lemma_param_views_push(out@, d);
    }
    out.push(d);
    assert(param_views(out@) =~= seq![
        param_view(a),
        param_view(b),
        param_view(c),
        param_view(d),
    ]);
    out
}

pub open spec fn music_only_signature() -> Seq<ParamView> {
    seq![
        needed("music"@, KindView::Music),
    ]
}

fn music_only_params() -> (r: Vec<Param>)
    ensures
        param_views(r@) == music_only_signature(),
{
    let r = one(Param::required("music", ArgKind::Music));
    assert(param_views(r@) =~= music_only_signature());
    r
}

pub open spec fn clef_signature() -> Seq<ParamView> {
    seq![
        needed("name"@, KindView::String),
    ]
}

fn clef_params() -> (r: Vec<Param>)
    ensures
        param_views(r@) == clef_signature(),
{
    let r = one(Param::required("name", ArgKind::String));
    assert(param_views(r@) =~= clef_signature());
    r
}

pub open spec fn property_signature() -> Seq<ParamView> {
    seq![
        needed("property"@, KindView::PropertyPath),
    ]
}

fn property_params() -> (r: Vec<Param>)
    ensures
        param_views(r@) == property_signature(),
{
    let r = one(Param::required("property", ArgKind::PropertyPath));
    assert(param_views(r@) =~= property_signature());
    r
}

pub open spec fn language_signature() -> Seq<ParamView> {
    seq![
        needed("language"@, KindView::String),
    ]
}

fn language_params() -> (r: Vec<Param>)
    ensures
        param_views(r@) == language_signature(),
{
    let r = one(Param::required("language", ArgKind::String));
    assert(param_views(r@) =~= language_signature());
    r
}

pub open spec fn filename_signature() -> Seq<ParamView> {
    seq![
        needed("filename"@, KindView::String),
    ]
}

fn filename_params() -> (r: Vec<Param>)
    ensures
        param_views(r@) == filename_signature(),
{
    let r = one(Param::required("filename", ArgKind::String));
    assert(param_views(r@) =~= filename_signature());
    r
}

pub open spec fn key_signature() -> Seq<ParamView> {
    seq![
        needed("tonic"@, KindView::Pitch),
        needed("mode"@, KindView::Word),
    ]
}

fn key_params() -> (r: Vec<Param>)
    ensures
        param_views(r@) == key_signature(),
{
    let r = two(
        Param::required("tonic", ArgKind::Pitch),
        Param::required("mode", ArgKind::Word),
    );
    assert(param_views(r@) =~= key_signature());
    r
}

pub open spec fn transpose_signature() -> Seq<ParamView> {
    seq![
        needed("from"@, KindView::Pitch),
        needed("to"@, KindView::Pitch),
        needed("music"@, KindView::Music),
    ]
}

fn transpose_params() -> (r: Vec<Param>)
    ensures
        param_views(r@) == transpose_signature(),
{
    let r = three(
        Param::required("from", ArgKind::Pitch),
        Param::required("to", ArgKind::Pitch),
        Param::required("music", ArgKind::Music),
    );
    assert(param_views(r@) =~= transpose_signature());
    r
}

pub open spec fn volta_signature() -> Seq<ParamView> {
    seq![
        needed("numbers"@, KindView::NumberList),
        needed("music"@, KindView::Music),
    ]
}

fn volta_params() -> (r: Vec<Param>)
    ensures
        param_views(r@) == volta_signature(),
{
    let r = two(
        Param::required("numbers", ArgKind::NumberList),
        Param::required("music", ArgKind::Music),
    );
    assert(param_views(r@) =~= volta_signature());
    r
}

pub open spec fn reference_pitch_signature() -> Seq<ParamView> {
    seq![
        allowed("reference"@, KindView::Pitch),
        needed("music"@, KindView::Music),
    ]
}

fn reference_pitch_params() -> (r: Vec<Param>)
    ensures
        param_views(r@) == reference_pitch_signature(),
{
    let r = two(
        Param::optional("reference", ArgKind::Pitch),
        Param::required("music", ArgKind::Music),
    );
    assert(param_views(r@) =~= reference_pitch_signature());
    r
}

pub open spec fn repeat_signature() -> Seq<ParamView> {
    seq![
        needed("kind"@, KindView::BareWord),
        needed("count"@, KindView::Count),
        needed("music"@, KindView::Music),
    ]
}

fn repeat_params() -> (r: Vec<Param>)
    ensures
        param_views(r@) == repeat_signature(),
{
    let r = three(
        Param::required("kind", ArgKind::BareWord),
        Param::required("count", ArgKind::Count),
        Param::required("music", ArgKind::Music),
    );
    assert(param_views(r@) =~= repeat_signature());
    r
}

pub open spec fn version_signature() -> Seq<ParamView> {
    seq![
        needed("version"@, KindView::String),
    ]
}

fn version_params() -> (r: Vec<Param>)
    ensures
        param_views(r@) == version_signature(),
{
    let r = one(Param::required("version", ArgKind::String));
    assert(param_views(r@) =~= version_signature());
    r
}

pub open spec fn change_signature() -> Seq<ParamView> {
    seq![
        needed("type"@, KindView::ContextType),
        needed("name"@, KindView::ContextName),
    ]
}

fn change_params() -> (r: Vec<Param>)
    ensures
        param_views(r@) == change_signature(),
{
    let r = two(
        Param::required("type", ArgKind::ContextType),
        Param::required("name", ArgKind::ContextName),
    );
    assert(param_views(r@) =~= change_signature());
    r
}

pub open spec fn lyricsto_signature() -> Seq<ParamView> {
    seq![
        allowed("voice"@, KindView::ContextName),
        needed("music"@, KindView::Music),
    ]
}

fn lyricsto_params() -> (r: Vec<Param>)
    ensures
        param_views(r@) == lyricsto_signature(),
{
    let r = two(
        Param::optional("voice", ArgKind::ContextName),
        Param::required("music", ArgKind::Music),
    );
    assert(param_views(r@) =~= lyricsto_signature());
    r
}

pub open spec fn tempo_assignment_signature() -> Seq<ParamView> {
    seq![
        needed("duration"@, KindView::Count),
        needed("="@, KindView::Literal("="@)),
        needed("value"@, KindView::Count),
    ]
}

fn tempo_assignment_params() -> (r: Vec<Param>)
    ensures
        param_views(r@) == tempo_assignment_signature(),
{
    let r = three(
        Param::required("duration", ArgKind::Count),
        Param::required("=", ArgKind::Literal("=".to_string())),
        Param::required("value", ArgKind::Count),
    );
    assert(param_views(r@) =~= tempo_assignment_signature());
    r
}

pub open spec fn tempo_signature() -> Seq<ParamView> {
    seq![
        allowed("text"@, KindView::String),
        allowed("duration = value"@, KindView::Group(tempo_assignment_signature())),
    ]
}

fn tempo_params() -> (r: Vec<Param>)
    ensures
        param_views(r@) == tempo_signature(),
{
    let r = two(
        Param::optional("text", ArgKind::String),
        Param::optional("duration = value", ArgKind::Group(tempo_assignment_params())),
    );
    assert(param_views(r@) =~= tempo_signature());
    r
}

pub open spec fn name_clause_signature() -> Seq<ParamView> {
    seq![
        needed("="@, KindView::Literal("="@)),
        needed("name"@, KindView::ContextName),
    ]
}

fn name_clause_params() -> (r: Vec<Param>)
    ensures
        param_views(r@) == name_clause_signature(),
{
    let r = two(
        Param::required("=", ArgKind::Literal("=".to_string())),
        Param::required("name", ArgKind::ContextName),
    );
    assert(param_views(r@) =~= name_clause_signature());
    r
}

pub open spec fn new_context_signature() -> Seq<ParamView> {
    seq![
        needed("type"@, KindView::ContextType),
        allowed("= name"@, KindView::Group(name_clause_signature())),
        allowed("with"@, KindView::Unknown("with block"@)),
        needed("music"@, KindView::Music),
    ]
}

fn new_context_params() -> (r: Vec<Param>)
    ensures
        param_views(r@) == new_context_signature(),
{
    let r = four(
        Param::required("type", ArgKind::ContextType),
        Param::optional("= name", ArgKind::Group(name_clause_params())),
        Param::optional("with", ArgKind::Unknown("with block".to_string())),
        Param::required("music", ArgKind::Music),
    );
    assert(param_views(r@) =~= new_context_signature());
    r
}

/// A candidate with its documentation.
pub open spec fn candidate(label: Seq<char>, documentation: Seq<char>) -> CandidateView {
    CandidateView { label, documentation }
}

fn push_candidate(out: &mut Vec<Candidate>, label: &str, documentation: &str)
    ensures
        candidate_views(final(out)@) == candidate_views(old(out)@).push(
            candidate(label@, documentation@),
        ),
{
    let ghost before = candidate_views(out@);
    let made = Candidate::new(label, documentation);
    out.push(made);
    assert(candidate_views(out@) =~= before.push(made@));
}

pub open spec fn clef_name_offers() -> Seq<CandidateView> {
    seq![
        candidate(
            "treble"@,
            "G clef on the second line."@,
        ),
        candidate(
            "bass"@,
            "F clef on the fourth line."@,
        ),
        candidate(
            "alto"@,
            "C clef on the third line."@,
        ),
        candidate(
            "tenor"@,
            "C clef on the fourth line."@,
        ),
        candidate(
            "percussion"@,
            "Neutral clef for unpitched percussion."@,
        ),
        candidate(
            "treble_8"@,
            "Treble clef, sounding an octave lower."@,
        ),
    ]
}

fn clef_name_candidates() -> (r: Vec<Candidate>)
    ensures
        candidate_views(r@) == clef_name_offers(),
{
    let mut out: Vec<Candidate> = Vec::new();
    assert(candidate_views(out@) =~= Seq::empty());
    push_candidate(
        &mut out,
        "treble",
        "G clef on the second line.",
    );
    push_candidate(
        &mut out,
        "bass",
        "F clef on the fourth line.",
    );
    push_candidate(
        &mut out,
        "alto",
        "C clef on the third line.",
    );
    push_candidate(
        &mut out,
        "tenor",
        "C clef on the fourth line.",
    );
    push_candidate(
        &mut out,
        "percussion",
        "Neutral clef for unpitched percussion.",
    );
    push_candidate(
        &mut out,
        "treble_8",
        "Treble clef, sounding an octave lower.",
    );
    assert(candidate_views(out@) =~= clef_name_offers());
    out
}

pub open spec fn key_mode_offers() -> Seq<CandidateView> {
    seq![
        candidate(
            "major"@,
            "Major (Ionian)."@,
        ),
        candidate(
            "minor"@,
            "Natural minor (Aeolian)."@,
        ),
        candidate(
            "ionian"@,
            "The major scale, named as a church mode."@,
        ),
        candidate(
            "dorian"@,
            "Minor with a raised sixth."@,
        ),
        candidate(
            "phrygian"@,
            "Minor with a lowered second."@,
        ),
        candidate(
            "lydian"@,
            "Major with a raised fourth."@,
        ),
        candidate(
            "mixolydian"@,
            "Major with a lowered seventh."@,
        ),
        candidate(
            "aeolian"@,
            "The natural minor scale, named as a church mode."@,
        ),
        candidate(
            "locrian"@,
            "Diminished-fifth mode, rarely used as a key."@,
        ),
    ]
}

fn key_mode_candidates() -> (r: Vec<Candidate>)
    ensures
        candidate_views(r@) == key_mode_offers(),
{
    let mut out: Vec<Candidate> = Vec::new();
    assert(candidate_views(out@) =~= Seq::empty());
    push_candidate(
        &mut out,
        "major",
        "Major (Ionian).",
    );
    push_candidate(
        &mut out,
        "minor",
        "Natural minor (Aeolian).",
    );
    push_candidate(
        &mut out,
        "ionian",
        "The major scale, named as a church mode.",
    );
    push_candidate(
        &mut out,
        "dorian",
        "Minor with a raised sixth.",
    );
    push_candidate(
        &mut out,
        "phrygian",
        "Minor with a lowered second.",
    );
    push_candidate(
        &mut out,
        "lydian",
        "Major with a raised fourth.",
    );
    push_candidate(
        &mut out,
        "mixolydian",
        "Major with a lowered seventh.",
    );
    push_candidate(
        &mut out,
        "aeolian",
        "The natural minor scale, named as a church mode.",
    );
    push_candidate(
        &mut out,
        "locrian",
        "Diminished-fifth mode, rarely used as a key.",
    );
    assert(candidate_views(out@) =~= key_mode_offers());
    out
}

pub open spec fn repeat_kind_offers() -> Seq<CandidateView> {
    seq![
        candidate(
            "volta"@,
            "Double-dot repeat barlines, optionally with alternate endings (first time bar &c.). Usually full bars, and vertically aligned across a full system."@,
        ),
        candidate(
            "unfold"@,
            "Writes the repeated music out in full, `count` times. Can be used on an individual voice or staff."@,
        ),
        candidate(
            "percent"@,
            "Slash or percent signs for repeating a single beat or bar within the structure of bars. Common for percussion. Can be used on one staff of a system."@,
        ),
        candidate(
            "tremolo"@,
            "A tremolo repeat, beamed between the repeated notes."@,
        ),
        candidate(
            "segno"@,
            "For D.C./D.S. al coda/fine repeats, often with volta repeats nested inside. Vertically aligned across a full system."@,
        ),
    ]
}

fn repeat_kind_candidates() -> (r: Vec<Candidate>)
    ensures
        candidate_views(r@) == repeat_kind_offers(),
{
    let mut out: Vec<Candidate> = Vec::new();
    assert(candidate_views(out@) =~= Seq::empty());
    push_candidate(
        &mut out,
        "volta",
        "Double-dot repeat barlines, optionally with alternate endings (first time bar &c.). Usually full bars, and vertically aligned across a full system.",
    );
    push_candidate(
        &mut out,
        "unfold",
        "Writes the repeated music out in full, `count` times. Can be used on an individual voice or staff.",
    );
    push_candidate(
        &mut out,
        "percent",
        "Slash or percent signs for repeating a single beat or bar within the structure of bars. Common for percussion. Can be used on one staff of a system.",
    );
    push_candidate(
        &mut out,
        "tremolo",
        "A tremolo repeat, beamed between the repeated notes.",
    );
    push_candidate(
        &mut out,
        "segno",
        "For D.C./D.S. al coda/fine repeats, often with volta repeats nested inside. Vertically aligned across a full system.",
    );
    assert(candidate_views(out@) =~= repeat_kind_offers());
    out
}

/// A row of the table.
pub open spec fn row(
    name: Seq<char>,
    params: Seq<ParamView>,
    behaviour: Behaviour,
    documentation: Option<Seq<char>>,
    completions: Seq<Seq<CandidateView>>,
) -> TableRow {
    TableRow { name, params, behaviour, documentation, completions }
}

/// Builds a command that takes a fixed signature.
pub fn static_command(
    name: &str,
    params: Vec<Param>,
    behaviour: Behaviour,
    documentation: Option<String>,
    completions: Vec<Vec<Candidate>>,
) -> (r: Command)
    ensures
        r.name@ == name@,
        r.params == params,
        r.behaviour == behaviour,
        r.documentation == documentation,
        r.completions == completions,
        r.definition is None,
        r.redefines is None,
{
    Command {
        name: name.to_string(),
        params,
        behaviour,
        documentation,
        completions,
        definition: None,
        redefines: None,
    }
}

/// Curated hover text.
pub fn curated(markdown: &str) -> (r: Option<String>)
    ensures
        r is Some,
        r->0@ == markdown@,
{
    Some(markdown.to_string())
}

/// Adds a command to a table.
fn push_row(
    out: &mut Vec<Entry>,
    name: &str,
    params: Vec<Param>,
    behaviour: Behaviour,
    documentation: Option<String>,
    completions: Vec<Vec<Candidate>>,
    Ghost(rows): Ghost<Seq<TableRow>>,
    Ghost(added): Ghost<TableRow>,
)
    requires
        are_rows(old(out)@, rows),
        added.name == name@,
        added.params == param_views(params@),
        added.behaviour == behaviour,
        match documentation {
            Some(text) => added.documentation == Some(text@),
            None => added.documentation is None,
        },
        added.completions == completion_views(completions@),
    ensures
        are_rows(final(out)@, rows.push(added)),
{
    let command = static_command(name, params, behaviour, documentation, completions);
    out.push(Entry { name: name.to_string(), command: Arc::new(command) });
}

fn no_completions() -> (r: Vec<Vec<Candidate>>)
    ensures
        completion_views(r@) == Seq::<Seq<CandidateView>>::empty(),
{
    let r: Vec<Vec<Candidate>> = Vec::new();
    assert(completion_views(r@) =~= Seq::empty());
    r
}

/// Completions for the first parameter.
fn first_completions(row: Vec<Candidate>) -> (r: Vec<Vec<Candidate>>)
    ensures
        completion_views(r@) == seq![candidate_views(row@)],
{
    let mut r: Vec<Vec<Candidate>> = Vec::new();
    r.push(row);
    assert(completion_views(r@) =~= seq![candidate_views(row@)]);
    r
}

/// Completions for the second parameter.
fn second_completions(row: Vec<Candidate>) -> (r: Vec<Vec<Candidate>>)
    ensures
        completion_views(r@) == seq![Seq::<CandidateView>::empty(), candidate_views(row@)],
{
    let mut r: Vec<Vec<Candidate>> = Vec::new();
    let none: Vec<Candidate> = Vec::new();
    assert(candidate_views(none@) =~= Seq::empty());
    r.push(none);
    r.push(row);
    assert(completion_views(r@) =~= seq![Seq::<CandidateView>::empty(), candidate_views(row@)]);
    r
}

/// LilyPond's reserved words, which its grammar recognises before any name lookup happens.
pub open spec fn reserved_rows() -> Seq<TableRow> {
    seq![
        row(
            "alternative"@,
            music_only_signature(),
            Behaviour::Static { entry: None, region: None },
            Some(ALTERNATIVE_DOC@),
            Seq::empty(),
        ),
        row(
            "notemode"@,
            music_only_signature(),
            Behaviour::Static { entry: Some(NoteEntry::Absolute), region: None },
            None,
            Seq::empty(),
        ),
        row(
            "notes"@,
            music_only_signature(),
            Behaviour::Static { entry: Some(NoteEntry::Absolute), region: None },
            None,
            Seq::empty(),
        ),
        row(
            "chordmode"@,
            music_only_signature(),
            Behaviour::Static { entry: None, region: Some(Region::ChordMusic) },
            None,
            Seq::empty(),
        ),
        row(
            "chords"@,
            music_only_signature(),
            Behaviour::Static { entry: None, region: Some(Region::ChordMusic) },
            None,
            Seq::empty(),
        ),
        row(
            "drummode"@,
            music_only_signature(),
            Behaviour::Static { entry: None, region: Some(Region::NonNote) },
            None,
            Seq::empty(),
        ),
        row(
            "drums"@,
            music_only_signature(),
            Behaviour::Static { entry: None, region: Some(Region::NonNote) },
            None,
            Seq::empty(),
        ),
        row(
            "figuremode"@,
            music_only_signature(),
            Behaviour::Static { entry: None, region: Some(Region::NonNote) },
            None,
            Seq::empty(),
        ),
        row(
            "figures"@,
            music_only_signature(),
            Behaviour::Static { entry: None, region: Some(Region::NonNote) },
            None,
            Seq::empty(),
        ),
        row(
            "lyricmode"@,
            music_only_signature(),
            Behaviour::Static { entry: None, region: Some(Region::Lyrics) },
            None,
            Seq::empty(),
        ),
        row(
            "lyrics"@,
            music_only_signature(),
            Behaviour::Static { entry: None, region: Some(Region::Lyrics) },
            None,
            Seq::empty(),
        ),
        row(
            "addlyrics"@,
            music_only_signature(),
            Behaviour::Static { entry: None, region: Some(Region::Lyrics) },
            None,
            Seq::empty(),
        ),
        row(
            "markup"@,
            music_only_signature(),
            Behaviour::Static { entry: None, region: Some(Region::NonNote) },
            None,
            Seq::empty(),
        ),
        row(
            "markuplist"@,
            music_only_signature(),
            Behaviour::Static { entry: None, region: Some(Region::NonNote) },
            None,
            Seq::empty(),
        ),
        row(
            "header"@,
            music_only_signature(),
            Behaviour::Static { entry: None, region: Some(Region::NonNote) },
            None,
            Seq::empty(),
        ),
        row(
            "paper"@,
            music_only_signature(),
            Behaviour::Static { entry: None, region: Some(Region::NonNote) },
            None,
            Seq::empty(),
        ),
        row(
            "layout"@,
            music_only_signature(),
            Behaviour::Static { entry: None, region: Some(Region::NonNote) },
            None,
            Seq::empty(),
        ),
        row(
            "midi"@,
            music_only_signature(),
            Behaviour::Static { entry: None, region: Some(Region::NonNote) },
            None,
            Seq::empty(),
        ),
        row(
            "with"@,
            music_only_signature(),
            Behaviour::Static { entry: None, region: Some(Region::NonNote) },
            None,
            Seq::empty(),
        ),
        row(
            "set"@,
            property_signature(),
            Behaviour::Static { entry: None, region: None },
            None,
            Seq::empty(),
        ),
        row(
            "unset"@,
            property_signature(),
            Behaviour::Static { entry: None, region: None },
            None,
            Seq::empty(),
        ),
        row(
            "tempo"@,
            tempo_signature(),
            Behaviour::Static { entry: None, region: None },
            Some(TEMPO_DOC@),
            Seq::empty(),
        ),
        row(
            "repeat"@,
            repeat_signature(),
            Behaviour::Repeat,
            Some(REPEAT_DOC@),
            seq![repeat_kind_offers()],
        ),
        row(
            "version"@,
            version_signature(),
            Behaviour::Version,
            Some(VERSION_DOC@),
            Seq::empty(),
        ),
        row(
            "new"@,
            new_context_signature(),
            Behaviour::NewContext,
            Some(NEW_DOC@),
            Seq::empty(),
        ),
        row(
            "context"@,
            new_context_signature(),
            Behaviour::NewContext,
            Some(CONTEXT_DOC@),
            Seq::empty(),
        ),
        row(
            "change"@,
            change_signature(),
            Behaviour::Change,
            Some(CHANGE_DOC@),
            Seq::empty(),
        ),
        row(
            "lyricsto"@,
            lyricsto_signature(),
            Behaviour::Lyricsto,
            Some(LYRICSTO_DOC@),
            Seq::empty(),
        ),
        row(
            "include"@,
            filename_signature(),
            Behaviour::Language { offers_names: false },
            None,
            Seq::empty(),
        ),
    ]
}

/// LilyPond's reserved words, which its grammar recognises before any name lookup happens.
pub fn reserved() -> (r: Layer)
    ensures
        r.wf(),
        are_rows(r.commands@, reserved_rows()),
        r.origin@ == OURS@,
        r.context_types@.len() == 0,
        r.context_instances@.len() == 0,
        r.id == 0,
{
    let ghost rows = reserved_rows();
    proof {
        lemma_reserved_distinct();
    }
    let mut out: Vec<Entry> = Vec::new();
    assert(are_rows(out@, rows.subrange(0, 0)));
    push_row(
        &mut out,
        "alternative",
        music_only_params(),
        Behaviour::Static { entry: None, region: None },
        curated(ALTERNATIVE_DOC),
        no_completions(),
        Ghost(rows.subrange(0, 0)),
        Ghost(rows[0]),
    );
    assert(rows.subrange(0, 0).push(rows[0]) =~= rows.subrange(0, 1));
    push_row(
        &mut out,
        "notemode",
        music_only_params(),
        Behaviour::Static { entry: Some(NoteEntry::Absolute), region: None },
        None,
        no_completions(),
        Ghost(rows.subrange(0, 1)),
        Ghost(rows[1]),
    );
    assert(rows.subrange(0, 1).push(rows[1]) =~= rows.subrange(0, 2));
    push_row(
        &mut out,
        "notes",
        music_only_params(),
        Behaviour::Static { entry: Some(NoteEntry::Absolute), region: None },
        None,
        no_completions(),
        Ghost(rows.subrange(0, 2)),
        Ghost(rows[2]),
    );
    assert(rows.subrange(0, 2).push(rows[2]) =~= rows.subrange(0, 3));
    push_row(
        &mut out,
        "chordmode",
        music_only_params(),
        Behaviour::Static { entry: None, region: Some(Region::ChordMusic) },
        None,
        no_completions(),
        Ghost(rows.subrange(0, 3)),
        Ghost(rows[3]),
    );
    assert(rows.subrange(0, 3).push(rows[3]) =~= rows.subrange(0, 4));
    push_row(
        &mut out,
        "chords",
        music_only_params(),
        Behaviour::Static { entry: None, region: Some(Region::ChordMusic) },
        None,
        no_completions(),
        Ghost(rows.subrange(0, 4)),
        Ghost(rows[4]),
    );
    assert(rows.subrange(0, 4).push(rows[4]) =~= rows.subrange(0, 5));
    push_row(
        &mut out,
        "drummode",
        music_only_params(),
        Behaviour::Static { entry: None, region: Some(Region::NonNote) },
        None,
        no_completions(),
        Ghost(rows.subrange(0, 5)),
        Ghost(rows[5]),
    );
    assert(rows.subrange(0, 5).push(rows[5]) =~= rows.subrange(0, 6));
    push_row(
        &mut out,
        "drums",
        music_only_params(),
        Behaviour::Static { entry: None, region: Some(Region::NonNote) },
        None,
        no_completions(),
        Ghost(rows.subrange(0, 6)),
        Ghost(rows[6]),
    );
    assert(rows.subrange(0, 6).push(rows[6]) =~= rows.subrange(0, 7));
    push_row(
        &mut out,
        "figuremode",
        music_only_params(),
        Behaviour::Static { entry: None, region: Some(Region::NonNote) },
        None,
        no_completions(),
        Ghost(rows.subrange(0, 7)),
        Ghost(rows[7]),
    );
    assert(rows.subrange(0, 7).push(rows[7]) =~= rows.subrange(0, 8));
    push_row(
        &mut out,
        "figures",
        music_only_params(),
        Behaviour::Static { entry: None, region: Some(Region::NonNote) },
        None,
        no_completions(),
        Ghost(rows.subrange(0, 8)),
        Ghost(rows[8]),
    );
    assert(rows.subrange(0, 8).push(rows[8]) =~= rows.subrange(0, 9));
    push_row(
        &mut out,
        "lyricmode",
        music_only_params(),
        Behaviour::Static { entry: None, region: Some(Region::Lyrics) },
        None,
        no_completions(),
        Ghost(rows.subrange(0, 9)),
        Ghost(rows[9]),
    );
    assert(rows.subrange(0, 9).push(rows[9]) =~= rows.subrange(0, 10));
    push_row(
        &mut out,
        "lyrics",
        music_only_params(),
        Behaviour::Static { entry: None, region: Some(Region::Lyrics) },
        None,
        no_completions(),
        Ghost(rows.subrange(0, 10)),
        Ghost(rows[10]),
    );
    assert(rows.subrange(0, 10).push(rows[10]) =~= rows.subrange(0, 11));
    push_row(
        &mut out,
        "addlyrics",
        music_only_params(),
        Behaviour::Static { entry: None, region: Some(Region::Lyrics) },
        None,
        no_completions(),
        Ghost(rows.subrange(0, 11)),
        Ghost(rows[11]),
    );
    assert(rows.subrange(0, 11).push(rows[11]) =~= rows.subrange(0, 12));
    push_row(
        &mut out,
        "markup",
        music_only_params(),
        Behaviour::Static { entry: None, region: Some(Region::NonNote) },
        None,
        no_completions(),
        Ghost(rows.subrange(0, 12)),
        Ghost(rows[12]),
    );
    assert(rows.subrange(0, 12).push(rows[12]) =~= rows.subrange(0, 13));
    push_row(
        &mut out,
        "markuplist",
        music_only_params(),
        Behaviour::Static { entry: None, region: Some(Region::NonNote) },
        None,
        no_completions(),
        Ghost(rows.subrange(0, 13)),
        Ghost(rows[13]),
    );
    assert(rows.subrange(0, 13).push(rows[13]) =~= rows.subrange(0, 14));
    push_row(
        &mut out,
        "header",
        music_only_params(),
        Behaviour::Static { entry: None, region: Some(Region::NonNote) },
        None,
        no_completions(),
        Ghost(rows.subrange(0, 14)),
        Ghost(rows[14]),
    );
    assert(rows.subrange(0, 14).push(rows[14]) =~= rows.subrange(0, 15));
    push_row(
        &mut out,
        "paper",
        music_only_params(),
        Behaviour::Static { entry: None, region: Some(Region::NonNote) },
        None,
        no_completions(),
        Ghost(rows.subrange(0, 15)),
        Ghost(rows[15]),
    );
    assert(rows.subrange(0, 15).push(rows[15]) =~= rows.subrange(0, 16));
    push_row(
        &mut out,
        "layout",
        music_only_params(),
        Behaviour::Static { entry: None, region: Some(Region::NonNote) },
        None,
        no_completions(),
        Ghost(rows.subrange(0, 16)),
        Ghost(rows[16]),
    );
    assert(rows.subrange(0, 16).push(rows[16]) =~= rows.subrange(0, 17));
    push_row(
        &mut out,
        "midi",
        music_only_params(),
        Behaviour::Static { entry: None, region: Some(Region::NonNote) },
        None,
        no_completions(),
        Ghost(rows.subrange(0, 17)),
        Ghost(rows[17]),
    );
    assert(rows.subrange(0, 17).push(rows[17]) =~= rows.subrange(0, 18));
    push_row(
        &mut out,
        "with",
        music_only_params(),
        Behaviour::Static { entry: None, region: Some(Region::NonNote) },
        None,
        no_completions(),
        Ghost(rows.subrange(0, 18)),
        Ghost(rows[18]),
    );
    assert(rows.subrange(0, 18).push(rows[18]) =~= rows.subrange(0, 19));
    push_row(
        &mut out,
        "set",
        property_params(),
        Behaviour::Static { entry: None, region: None },
        None,
        no_completions(),
        Ghost(rows.subrange(0, 19)),
        Ghost(rows[19]),
    );
    assert(rows.subrange(0, 19).push(rows[19]) =~= rows.subrange(0, 20));
    push_row(
        &mut out,
        "unset",
        property_params(),
        Behaviour::Static { entry: None, region: None },
        None,
        no_completions(),
        Ghost(rows.subrange(0, 20)),
        Ghost(rows[20]),
    );
    assert(rows.subrange(0, 20).push(rows[20]) =~= rows.subrange(0, 21));
    push_row(
        &mut out,
        "tempo",
        tempo_params(),
        Behaviour::Static { entry: None, region: None },
        curated(TEMPO_DOC),
        no_completions(),
        Ghost(rows.subrange(0, 21)),
        Ghost(rows[21]),
    );
    assert(rows.subrange(0, 21).push(rows[21]) =~= rows.subrange(0, 22));
    push_row(
        &mut out,
        "repeat",
        repeat_params(),
        Behaviour::Repeat,
        curated(REPEAT_DOC),
        first_completions(repeat_kind_candidates()),
        Ghost(rows.subrange(0, 22)),
        Ghost(rows[22]),
    );
    assert(rows.subrange(0, 22).push(rows[22]) =~= rows.subrange(0, 23));
    push_row(
        &mut out,
        "version",
        version_params(),
        Behaviour::Version,
        curated(VERSION_DOC),
        no_completions(),
        Ghost(rows.subrange(0, 23)),
        Ghost(rows[23]),
    );
    assert(rows.subrange(0, 23).push(rows[23]) =~= rows.subrange(0, 24));
    push_row(
        &mut out,
        "new",
        new_context_params(),
        Behaviour::NewContext,
        curated(NEW_DOC),
        no_completions(),
        Ghost(rows.subrange(0, 24)),
        Ghost(rows[24]),
    );
    assert(rows.subrange(0, 24).push(rows[24]) =~= rows.subrange(0, 25));
    push_row(
        &mut out,
        "context",
        new_context_params(),
        Behaviour::NewContext,
        curated(CONTEXT_DOC),
        no_completions(),
        Ghost(rows.subrange(0, 25)),
        Ghost(rows[25]),
    );
    assert(rows.subrange(0, 25).push(rows[25]) =~= rows.subrange(0, 26));
    push_row(
        &mut out,
        "change",
        change_params(),
        Behaviour::Change,
        curated(CHANGE_DOC),
        no_completions(),
        Ghost(rows.subrange(0, 26)),
        Ghost(rows[26]),
    );
    assert(rows.subrange(0, 26).push(rows[26]) =~= rows.subrange(0, 27));
    push_row(
        &mut out,
        "lyricsto",
        lyricsto_params(),
        Behaviour::Lyricsto,
        curated(LYRICSTO_DOC),
        no_completions(),
        Ghost(rows.subrange(0, 27)),
        Ghost(rows[27]),
    );
    assert(rows.subrange(0, 27).push(rows[27]) =~= rows.subrange(0, 28));
    push_row(
        &mut out,
        "include",
        filename_params(),
        Behaviour::Language { offers_names: false },
        None,
        no_completions(),
        Ghost(rows.subrange(0, 28)),
        Ghost(rows[28]),
    );
    assert(rows.subrange(0, 28).push(rows[28]) =~= rows.subrange(0, 29));
    assert(rows.subrange(0, 29) =~= rows);
    Layer {
        origin: Arc::new(OURS.to_string()),
        commands: out,
        context_types: Vec::new(),
        context_instances: Vec::new(),
        id: 0,
    }
}

/// Curated signatures for ordinary music functions.
pub open spec fn curated_commands_rows() -> Seq<TableRow> {
    seq![
        row(
            "volta"@,
            volta_signature(),
            Behaviour::Static { entry: None, region: None },
            Some(VOLTA_DOC@),
            Seq::empty(),
        ),
        row(
            "clef"@,
            clef_signature(),
            Behaviour::Static { entry: None, region: None },
            Some(CLEF_DOC@),
            seq![clef_name_offers()],
        ),
        row(
            "key"@,
            key_signature(),
            Behaviour::Static { entry: None, region: None },
            Some(KEY_DOC@),
            seq![Seq::empty(), key_mode_offers()],
        ),
        row(
            "transpose"@,
            transpose_signature(),
            Behaviour::Static { entry: None, region: None },
            Some(TRANSPOSE_DOC@),
            Seq::empty(),
        ),
        row(
            "relative"@,
            reference_pitch_signature(),
            Behaviour::Relative,
            Some(RELATIVE_DOC@),
            Seq::empty(),
        ),
        row(
            "fixed"@,
            reference_pitch_signature(),
            Behaviour::Fixed,
            Some(FIXED_DOC@),
            Seq::empty(),
        ),
        row(
            "language"@,
            language_signature(),
            Behaviour::Language { offers_names: true },
            Some(LANGUAGE_DOC@),
            Seq::empty(),
        ),
    ]
}

/// Curated signatures for ordinary music functions.
pub fn curated_commands() -> (r: Layer)
    ensures
        r.wf(),
        are_rows(r.commands@, curated_commands_rows()),
        r.origin@ == OURS@,
        r.context_types@.len() == 0,
        r.context_instances@.len() == 0,
        r.id == 1,
{
    let ghost rows = curated_commands_rows();
    proof {
        lemma_curated_commands_distinct();
    }
    let mut out: Vec<Entry> = Vec::new();
    assert(are_rows(out@, rows.subrange(0, 0)));
    push_row(
        &mut out,
        "volta",
        volta_params(),
        Behaviour::Static { entry: None, region: None },
        curated(VOLTA_DOC),
        no_completions(),
        Ghost(rows.subrange(0, 0)),
        Ghost(rows[0]),
    );
    assert(rows.subrange(0, 0).push(rows[0]) =~= rows.subrange(0, 1));
    push_row(
        &mut out,
        "clef",
        clef_params(),
        Behaviour::Static { entry: None, region: None },
        curated(CLEF_DOC),
        first_completions(clef_name_candidates()),
        Ghost(rows.subrange(0, 1)),
        Ghost(rows[1]),
    );
    assert(rows.subrange(0, 1).push(rows[1]) =~= rows.subrange(0, 2));
    push_row(
        &mut out,
        "key",
        key_params(),
        Behaviour::Static { entry: None, region: None },
        curated(KEY_DOC),
        second_completions(key_mode_candidates()),
        Ghost(rows.subrange(0, 2)),
        Ghost(rows[2]),
    );
    assert(rows.subrange(0, 2).push(rows[2]) =~= rows.subrange(0, 3));
    push_row(
        &mut out,
        "transpose",
        transpose_params(),
        Behaviour::Static { entry: None, region: None },
        curated(TRANSPOSE_DOC),
        no_completions(),
        Ghost(rows.subrange(0, 3)),
        Ghost(rows[3]),
    );
    assert(rows.subrange(0, 3).push(rows[3]) =~= rows.subrange(0, 4));
    push_row(
        &mut out,
        "relative",
        reference_pitch_params(),
        Behaviour::Relative,
        curated(RELATIVE_DOC),
        no_completions(),
        Ghost(rows.subrange(0, 4)),
        Ghost(rows[4]),
    );
    assert(rows.subrange(0, 4).push(rows[4]) =~= rows.subrange(0, 5));
    push_row(
        &mut out,
        "fixed",
        reference_pitch_params(),
        Behaviour::Fixed,
        curated(FIXED_DOC),
        no_completions(),
        Ghost(rows.subrange(0, 5)),
        Ghost(rows[5]),
    );
    assert(rows.subrange(0, 5).push(rows[5]) =~= rows.subrange(0, 6));
    push_row(
        &mut out,
        "language",
        language_params(),
        Behaviour::Language { offers_names: true },
        curated(LANGUAGE_DOC),
        no_completions(),
        Ghost(rows.subrange(0, 6)),
        Ghost(rows[6]),
    );
    assert(rows.subrange(0, 6).push(rows[6]) =~= rows.subrange(0, 7));
    assert(rows.subrange(0, 7) =~= rows);
    Layer {
        origin: Arc::new(OURS.to_string()),
        commands: out,
        context_types: Vec::new(),
        context_instances: Vec::new(),
        id: 1,
    }
}

} // verus!
