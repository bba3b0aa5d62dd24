//! Command and argument parsing.
//!
//! A command (`\repeat`, `\key`, …) takes arguments in a shape of its own, which the grammar leaves
//! as a flat run of sibling nodes. This module consumes the arguments that a command's signature
//! calls for, producing a structured call.
pub mod behaviour;
pub mod builtins;
pub mod calls;
pub mod collect;
pub mod definition;
pub mod parse;
pub mod reader;
pub mod scheme;
pub mod specs;
pub mod texinfo;
pub mod variable;

use vstd::prelude::*;
use vstd::string::StringExecFns;
use std::sync::Arc;
use crate::line_struct::Span;
use crate::note_names::NoteLanguage;
use crate::notes::Pitch;

verus! {

/// One parameter of a command.
#[derive(Debug)]
pub struct Param {
    pub name: String,
    pub kind: ArgKind,
    pub optional: bool,
}

/// The shape of an argument.
#[derive(Debug)]
pub enum ArgKind {
    /// A bare word (`volta`).
    BareWord,
    /// An unsigned integer.
    Count,
    /// A comma-separated run of unsigned integers (`2,3`).
    NumberList,
    /// A fraction (`4/4`).
    Fraction,
    /// A `{ … }` or `<< … >>` block, or a single braceless note or chord.
    Music,
    /// A note name with octave marks.
    Pitch,
    /// An escaped word (`\major`).
    Word,
    /// A quoted string, or a bare word standing in for one.
    String,
    /// A context-property path (`Staff.instrumentName`).
    PropertyPath,
    /// An argument of a shape not modelled, named by its predicate.
    Unknown(String),
    /// A fixed punctuation token.
    Literal(String),
    /// A run of parameters read as one argument.
    Group(Vec<Param>),
    /// The name of a context type.
    ContextType,
    /// The name of a context instance.
    ContextName,
}

/// What an [`ArgKind`] says.
pub enum KindView {
    BareWord,
    Count,
    NumberList,
    Fraction,
    Music,
    Pitch,
    Word,
    String,
    PropertyPath,
    Unknown(Seq<char>),
    Literal(Seq<char>),
    Group(Seq<ParamView>),
    ContextType,
    ContextName,
}

/// What a [`Param`] says.
pub struct ParamView {
    pub name: Seq<char>,
    pub kind: KindView,
    pub optional: bool,
}

/// What a kind says.
pub open spec fn kind_view(kind: ArgKind) -> KindView
    decreases kind,
{
    match kind {
        ArgKind::BareWord => KindView::BareWord,
        ArgKind::Count => KindView::Count,
        ArgKind::NumberList => KindView::NumberList,
        ArgKind::Fraction => KindView::Fraction,
        ArgKind::Music => KindView::Music,
        ArgKind::Pitch => KindView::Pitch,
        ArgKind::Word => KindView::Word,
        ArgKind::String => KindView::String,
        ArgKind::PropertyPath => KindView::PropertyPath,
        ArgKind::Unknown(predicate) => KindView::Unknown(predicate@),
        ArgKind::Literal(text) => KindView::Literal(text@),
        ArgKind::Group(params) => KindView::Group(param_views(params@)),
        ArgKind::ContextType => KindView::ContextType,
        ArgKind::ContextName => KindView::ContextName,
    }
}

/// What each of a run of parameters says.
pub open spec fn param_views(params: Seq<Param>) -> Seq<ParamView>
    decreases params,
{
    if params.len() == 0 {
        Seq::empty()
    } else {
        let first = params[0];
        seq![
            ParamView {
                name: first.name@,
                kind: kind_view(first.kind),
                optional: first.optional,
            },
        ] + param_views(params.drop_first())
    }
}

/// What a parameter says.
pub open spec fn param_view(param: Param) -> ParamView {
    ParamView { name: param.name@, kind: kind_view(param.kind), optional: param.optional }
}

pub proof fn lemma_param_views(params: Seq<Param>)
    ensures
        param_views(params).len() == params.len(),
        forall|i: int|
            0 <= i < params.len() ==> #[trigger] param_views(params)[i] == param_view(params[i]),
    decreases params.len(),
{
    if params.len() > 0 {
        lemma_param_views(params.drop_first());
        assert forall|i: int| 0 <= i < params.len() implies #[trigger] param_views(params)[i]
            == param_view(params[i]) by {
            if i > 0 {
                assert(param_views(params)[i] == param_views(params.drop_first())[i - 1]);
            }
        }
    }
}

pub proof fn lemma_param_views_push(params: Seq<Param>, param: Param)
    ensures
        param_views(params.push(param)) == param_views(params).push(param_view(param)),
{
    lemma_param_views(params);
    lemma_param_views(params.push(param));
    assert(param_views(params.push(param)) =~= param_views(params).push(param_view(param)));
}

/// One parsed argument, tagged by its [`ArgKind`].
#[derive(Debug)]
pub enum Arg {
    BareWord { span: Span, text: String },
    Count { span: Span, value: u32 },
    NumberList { span: Span, values: Vec<u32> },
    Fraction { span: Span },
    Music { span: Span },
    Pitch { span: Span, pitch: Pitch },
    Word { span: Span, text: String },
    String { span: Span, text: String },
    PropertyPath { span: Span, path: Vec<String> },
    Unknown { span: Span },
    Literal { span: Span },
    Group { span: Span, args: Vec<Arg> },
    ContextType { span: Span, name: String },
    ContextName { span: Span, name: String },
}

/// What an [`Arg`] holds.
pub enum ArgView {
    BareWord { span: Span, text: Seq<char> },
    Count { span: Span, value: u32 },
    NumberList { span: Span, values: Seq<u32> },
    Fraction { span: Span },
    Music { span: Span },
    Pitch { span: Span, pitch: Pitch },
    Word { span: Span, text: Seq<char> },
    String { span: Span, text: Seq<char> },
    PropertyPath { span: Span, path: Seq<Seq<char>> },
    Unknown { span: Span },
    Literal { span: Span },
    Group { span: Span, args: Seq<ArgView> },
    ContextType { span: Span, name: Seq<char> },
    ContextName { span: Span, name: Seq<char> },
}

/// What each of a run of texts holds.
pub open spec fn text_views(texts: Seq<String>) -> Seq<Seq<char>> {
    texts.map_values(|text: String| text@)
}

/// What an argument holds.
pub open spec fn arg_view(arg: Arg) -> ArgView
    decreases arg,
{
    match arg {
        Arg::BareWord { span, text } => ArgView::BareWord { span, text: text@ },
        Arg::Count { span, value } => ArgView::Count { span, value },
        Arg::NumberList { span, values } => ArgView::NumberList { span, values: values@ },
        Arg::Fraction { span } => ArgView::Fraction { span },
        Arg::Music { span } => ArgView::Music { span },
        Arg::Pitch { span, pitch } => ArgView::Pitch { span, pitch },
        Arg::Word { span, text } => ArgView::Word { span, text: text@ },
        Arg::String { span, text } => ArgView::String { span, text: text@ },
        Arg::PropertyPath { span, path } => ArgView::PropertyPath { span, path: text_views(path@) },
        Arg::Unknown { span } => ArgView::Unknown { span },
        Arg::Literal { span } => ArgView::Literal { span },
        Arg::Group { span, args } => ArgView::Group { span, args: arg_views(args@) },
        Arg::ContextType { span, name } => ArgView::ContextType { span, name: name@ },
        Arg::ContextName { span, name } => ArgView::ContextName { span, name: name@ },
    }
}

/// What each of a run of arguments holds.
pub open spec fn arg_views(args: Seq<Arg>) -> Seq<ArgView>
    decreases args,
{
    if args.len() == 0 {
        Seq::empty()
    } else {
        seq![arg_view(args[0])] + arg_views(args.drop_first())
    }
}

pub proof fn lemma_arg_views(args: Seq<Arg>)
    ensures
        arg_views(args).len() == args.len(),
        forall|i: int| 0 <= i < args.len() ==> #[trigger] arg_views(args)[i] == arg_view(args[i]),
    decreases args.len(),
{
    if args.len() > 0 {
        lemma_arg_views(args.drop_first());
        assert forall|i: int| 0 <= i < args.len() implies #[trigger] arg_views(args)[i] == arg_view(
            args[i],
        ) by {
            if i > 0 {
                assert(arg_views(args)[i] == arg_views(args.drop_first())[i - 1]);
            }
        }
    }
}

pub proof fn lemma_arg_views_push(args: Seq<Arg>, arg: Arg)
    ensures
        arg_views(args.push(arg)) == arg_views(args).push(arg_view(arg)),
{
    lemma_arg_views(args);
    lemma_arg_views(args.push(arg));
    assert(arg_views(args.push(arg)) =~= arg_views(args).push(arg_view(arg)));
}

impl ArgView {
    pub open spec fn place(self) -> Span {
        match self {
            ArgView::BareWord { span, .. } => span,
            ArgView::Count { span, .. } => span,
            ArgView::NumberList { span, .. } => span,
            ArgView::Fraction { span } => span,
            ArgView::Music { span } => span,
            ArgView::Pitch { span, .. } => span,
            ArgView::Word { span, .. } => span,
            ArgView::String { span, .. } => span,
            ArgView::PropertyPath { span, .. } => span,
            ArgView::Unknown { span } => span,
            ArgView::Literal { span } => span,
            ArgView::Group { span, .. } => span,
            ArgView::ContextType { span, .. } => span,
            ArgView::ContextName { span, .. } => span,
        }
    }
}

impl Arg {
    /// The extent an argument covers.
    pub fn span(&self) -> (r: Span)
        ensures
            r == arg_view(*self).place(),
    {
        match self {
            Arg::BareWord { span, .. } => *span,
            Arg::Count { span, .. } => *span,
            Arg::NumberList { span, .. } => *span,
            Arg::Fraction { span } => *span,
            Arg::Music { span } => *span,
            Arg::Pitch { span, .. } => *span,
            Arg::Word { span, .. } => *span,
            Arg::String { span, .. } => *span,
            Arg::PropertyPath { span, .. } => *span,
            Arg::Unknown { span } => *span,
            Arg::Literal { span } => *span,
            Arg::Group { span, .. } => *span,
            Arg::ContextType { span, .. } => *span,
            Arg::ContextName { span, .. } => *span,
        }
    }
}


/// How the octaves of written notes are to be read.
#[derive(Debug, Clone, Copy, PartialEq, Eq, Structural)]
pub enum NoteEntry {
    /// Octave marks are absolute: `c` is octave -1, and each mark adjusts from there.
    Absolute,
    /// `\relative`: octave marks adjust from the previous note. Carries the running reference.
    Relative(Pitch),
    /// `\fixed p`: like absolute, shifted so that an unmarked note sits in `p`'s octave.
    Fixed(i32),
}

/// What the symbols in a stretch of music mean.
#[derive(Debug, Clone, Copy, PartialEq, Eq, Structural)]
pub enum Region {
    /// Bare symbols and chords are note events; nested bare blocks stay note music.
    NoteMusic,
    /// `\chordmode`: bare symbols are chord-mode entries; nested bare blocks stay chord music.
    ChordMusic,
    /// Lyrics: every bare symbol and quoted string is a syllable.
    Lyrics,
    /// Drums, figures, markup, headers: bare symbols are not events.
    NonNote,
    /// The top level of a file: not an event stream, though its nested bare blocks are note music.
    NoteContext,
}

impl Region {
    pub open spec fn nested(self) -> Region {
        match self {
            Region::NoteContext => Region::NoteMusic,
            other => other,
        }
    }

    /// What a bare block nested in this region holds.
    pub fn nested_block(self) -> (r: Region)
        ensures
            r == self.nested(),
    {
        match self {
            Region::NonNote => Region::NonNote,
            Region::ChordMusic => Region::ChordMusic,
            Region::Lyrics => Region::Lyrics,
            Region::NoteMusic | Region::NoteContext => Region::NoteMusic,
        }
    }

    /// Whether bare words here are events.
    pub fn reads_words(self) -> (r: bool)
        ensures
            r == (self is Lyrics),
    {
        matches!(self, Region::Lyrics)
    }

    /// The region a command's own body is read in: a concrete event stream.
    pub fn in_a_command_body(self) -> (r: Region)
        ensures
            r == self.nested(),
            r !is NoteContext,
    {
        match self {
            Region::NoteContext => Region::NoteMusic,
            concrete => concrete,
        }
    }
}

/// Nesting a block in a nested block changes nothing more.
pub proof fn law_nested_block_is_idempotent(region: Region)
    ensures
        region.nested().nested() == region.nested(),
        region.nested() !is NoteContext,
{
}

/// What a stretch of music is read in: how octaves are written, what symbols mean, and in which
/// note names.
#[derive(Debug)]
pub struct MusicContext {
    pub entry: NoteEntry,
    pub region: Region,
    pub language: Arc<NoteLanguage>,
}

impl MusicContext {
    pub fn new(entry: NoteEntry, region: Region, language: Arc<NoteLanguage>) -> (r: Self)
        ensures
            r == (MusicContext { entry, region, language }),
    {
        Self { entry, region, language }
    }

    pub open spec fn entering(self, entry: NoteEntry) -> MusicContext {
        MusicContext { entry, region: Region::NoteMusic, language: self.language }
    }

    /// This context with octaves written another way. Saying how octaves are written is only
    /// meaningful of notes, so the music is note music.
    #[must_use]
    pub fn with_entry(&self, entry: NoteEntry) -> (r: Self)
        ensures
            r == self.entering(entry),
    {
        Self { entry, region: Region::NoteMusic, language: self.language.clone() }
    }

    pub open spec fn in_region(self, region: Region) -> MusicContext {
        MusicContext { entry: self.entry, region, language: self.language }
    }

    /// This context with symbols that mean something else.
    #[must_use]
    pub fn with_region(&self, region: Region) -> (r: Self)
        ensures
            r == self.in_region(region),
    {
        Self { entry: self.entry, region, language: self.language.clone() }
    }

    pub open spec fn speaking(self, language: NoteLanguage) -> MusicContext {
        MusicContext { entry: self.entry, region: self.region, language: Arc::new(language) }
    }

    /// This context with other note names.
    #[must_use]
    pub fn with_language(&self, language: Arc<NoteLanguage>) -> (r: Self)
        ensures
            r == self.speaking(*language),
    {
        Self { entry: self.entry, region: self.region, language }
    }
}

/// Something to offer for an argument.
#[derive(Debug)]
pub struct Candidate {
    pub label: String,
    pub documentation: String,
}

/// What a [`Candidate`] says.
pub struct CandidateView {
    pub label: Seq<char>,
    pub documentation: Seq<char>,
}

impl View for Candidate {
    type V = CandidateView;

    open spec fn view(&self) -> CandidateView {
        CandidateView { label: self.label@, documentation: self.documentation@ }
    }
}

/// What each of a run of candidates says.
pub open spec fn candidate_views(candidates: Seq<Candidate>) -> Seq<CandidateView> {
    candidates.map_values(|candidate: Candidate| candidate@)
}

impl Candidate {
    pub fn new(label: &str, documentation: &str) -> (r: Self)
        ensures
            r@ == (CandidateView { label: label@, documentation: documentation@ }),
    {
        Self { label: label.to_string(), documentation: documentation.to_string() }
    }

    /// The same candidate once more.
    pub fn copy(&self) -> (r: Self)
        ensures
            r@ == self@,
    {
        Self { label: self.label.clone(), documentation: self.documentation.clone() }
    }
}

/// Where a variable's value is written: the text of the file that binds it, and the span of the
/// value in it.
#[derive(Debug)]
pub struct Value {
    pub source: Arc<String>,
    pub span: Span,
}

/// What makes a command more than its signature.
#[derive(Debug)]
pub enum Behaviour {
    /// A fixed signature, and what it says of how its body is read.
    Static { entry: Option<NoteEntry>, region: Option<Region> },
    /// `\relative`: the body is read relative to the reference pitch.
    Relative,
    /// `\fixed`: the body is read in the reference pitch's octave.
    Fixed,
    /// `\repeat`: the kind and the count are checked.
    Repeat,
    /// `\version`: the installed version is offered.
    Version,
    /// `\new` and `\context`: the body is read as the named context type says.
    NewContext,
    /// `\change`: a context type and the name of an instance.
    Change,
    /// `\lyricsto`: the body is lyrics.
    Lyricsto,
    /// `\language` and the inclusion of a language's file: note names change from here on.
    Language { offers_names: bool },
    /// A function read out of Scheme, with its signature as it documents itself.
    Scheme,
    /// A name bound to a value: it takes no arguments.
    Variable { value: Option<Value> },
}

/// A command that `\name` can call.
#[derive(Debug)]
pub struct Command {
    pub name: String,
    pub params: Vec<Param>,
    pub behaviour: Behaviour,
    /// Hover text, in Markdown.
    pub documentation: Option<String>,
    /// What to offer for each parameter, by its position.
    pub completions: Vec<Vec<Candidate>>,
    /// Where the file that defines the command wrote its name.
    pub definition: Option<Span>,
    /// The definition this one replaced in the same file.
    pub redefines: Option<Arc<Command>>,
}

impl Param {
    pub fn required(name: &str, kind: ArgKind) -> (r: Self)
        ensures
            r.name@ == name@,
            r.kind == kind,
            !r.optional,
    {
        Self { name: name.to_string(), kind, optional: false }
    }

    pub fn optional(name: &str, kind: ArgKind) -> (r: Self)
        ensures
            r.name@ == name@,
            r.kind == kind,
            r.optional,
    {
        Self { name: name.to_string(), kind, optional: true }
    }
}

/// The parameters of a signature as they are shown, each behind a space, the optional ones in
/// brackets.
pub open spec fn params_label(params: Seq<Param>) -> Seq<char>
    decreases params.len(),
{
    if params.len() == 0 {
        Seq::empty()
    } else {
        let last = params.last();
        params_label(params.drop_last()) + (" "@ + if last.optional {
            "["@ + last.name@ + "]"@
        } else {
            last.name@
        })
    }
}

/// A signature as it is shown: `\name first [second] …`.
pub fn signature_label(name: &str, params: &Vec<Param>) -> (r: String)
    ensures
        r@ == "\\"@ + name@ + params_label(params@),
{
    let mut label = "\\".to_string();
    label.append(name);
    let ghost head = label@;
    let mut k: usize = 0;
    assert(label@ =~= head + params_label(params@.subrange(0, 0)));
    while k < params.len()
        invariant
            k <= params@.len(),
            label@ == head + params_label(params@.subrange(0, k as int)),
        decreases params.len() - k,
    {
        let ghost before = label@;
        assert(params@.subrange(0, k + 1).drop_last() =~= params@.subrange(0, k as int));
        label.append(" ");
        if params[k].optional {
            label.append("[");
            label.append(params[k].name.as_str());
            label.append("]");
            assert(label@ =~= before + (" "@ + ("["@ + params@[k as int].name@ + "]"@)));
        } else {
            label.append(params[k].name.as_str());
            assert(label@ =~= before + (" "@ + params@[k as int].name@));
        }
        assert(label@ =~= head + params_label(params@.subrange(0, k + 1)));
        k = k + 1;
    }
    assert(params@.subrange(0, k as int) =~= params@);
    label
}

/// `code` as a fenced block of LilyPond.
pub open spec fn fenced(code: Seq<char>) -> Seq<char> {
    "```lilypond\n"@ + code + "\n```"@
}

pub fn code_block(code: &str) -> (r: String)
    ensures
        r@ == fenced(code@),
{
    let mut out = "```lilypond\n".to_string();
    out.append(code);
    out.append("\n```");
    out
}

impl Command {
    /// The command's synopsis: its signature as code, where it takes anything.
    pub open spec fn synopsis_text(self) -> Option<Seq<char>> {
        if self.params@.len() == 0 {
            None
        } else {
            Some(fenced("\\"@ + self.name@ + params_label(self.params@)))
        }
    }

    pub fn synopsis(&self) -> (r: Option<String>)
        ensures
            match r {
                Some(text) => self.synopsis_text() == Some(text@),
                None => self.synopsis_text() is None,
            },
    {
        if self.params.len() == 0 {
            None
        } else {
            let label = signature_label(self.name.as_str(), &self.params);
            Some(code_block(label.as_str()))
        }
    }
}

/// Where a file writes a name it defines, latest first: the command's own place and those of the
/// definitions it replaced.
pub open spec fn latest_definitions(command: Command) -> Seq<Span>
    decreases command,
{
    let here = match command.definition {
        Some(span) => seq![span],
        None => Seq::empty(),
    };
    match command.redefines {
        Some(before) => here + latest_definitions(*before),
        None => here,
    }
}

/// Everywhere a file defines a command, in source order.
pub fn definition_spans(command: &Command) -> (r: Vec<Span>)
    ensures
        r@ == latest_definitions(*command).reverse(),
    decreases command,
{
    let mut spans: Vec<Span> = match &command.redefines {
        Some(before) => definition_spans(before),
        None => Vec::new(),
    };
    let ghost older = spans@;
    match command.definition {
        Some(span) => {
            spans.push(span);
        },
        None => {},
    }
    assert(spans@ =~= latest_definitions(*command).reverse());
    spans
}

/// A parsed command invocation: the command word and the arguments it consumed, each with the
/// extent it covered.
#[derive(Debug)]
pub struct CommandCall {
    /// The command name, without the leading backslash.
    pub name: String,
    /// The `\command` keyword token.
    pub keyword: Span,
    /// The whole call: the keyword through the last argument consumed.
    pub span: Span,
    /// The arguments parsed, in order. Shorter than the signature when one is still missing.
    pub args: Vec<Arg>,
    /// What the name resolved to.
    pub cmd: Arc<Command>,
    /// Where the knowledge of the command came from.
    pub origin: Arc<String>,
}

/// The end of the arguments before the first music, or `end` where there are none.
pub open spec fn header_end(args: Seq<Arg>, end: usize) -> usize
    decreases args.len(),
{
    if args.len() == 0 || args[0] is Music {
        end
    } else {
        header_end(args.drop_first(), arg_view(args[0]).place().end)
    }
}

/// The extent of the first music among `args`.
pub open spec fn first_music(args: Seq<Arg>) -> Option<Span>
    decreases args.len(),
{
    if args.len() == 0 {
        None
    } else {
        match args[0] {
            Arg::Music { span } => Some(span),
            _ => first_music(args.drop_first()),
        }
    }
}

impl CommandCall {
    /// The keyword and every argument before the body.
    pub fn header(&self) -> (r: Span)
        ensures
            r == (Span {
                start: self.keyword.start,
                end: header_end(self.args@, self.keyword.end),
            }),
    {
        let mut end: usize = self.keyword.end;
        let mut k: usize = 0;
        assert(self.args@.subrange(0, self.args@.len() as int) =~= self.args@);
        while k < self.args.len()
            invariant
                k <= self.args@.len(),
                header_end(self.args@, self.keyword.end) == header_end(
                    self.args@.subrange(k as int, self.args@.len() as int),
                    end,
                ),
            decreases self.args.len() - k,
        {
            assert(self.args@.subrange(k as int, self.args@.len() as int).drop_first()
                =~= self.args@.subrange(k + 1, self.args@.len() as int));
            if matches!(self.args[k], Arg::Music { .. }) {
                return Span::new(self.keyword.start, end);
            }
            end = self.args[k].span().end;
            k = k + 1;
        }
        Span::new(self.keyword.start, end)
    }

    /// The extent of the call's first music argument, its body.
    pub fn body(&self) -> (r: Option<Span>)
        ensures
            r == first_music(self.args@),
    {
        let mut k: usize = 0;
        assert(self.args@.subrange(0, self.args@.len() as int) =~= self.args@);
        while k < self.args.len()
            invariant
                k <= self.args@.len(),
                first_music(self.args@) == first_music(
                    self.args@.subrange(k as int, self.args@.len() as int),
                ),
            decreases self.args.len() - k,
        {
            assert(self.args@.subrange(k as int, self.args@.len() as int).drop_first()
                =~= self.args@.subrange(k + 1, self.args@.len() as int));
            match &self.args[k] {
                Arg::Music { span } => {
                    return Some(*span);
                },
                _ => {},
            }
            k = k + 1;
        }
        None
    }
}

} // verus!
