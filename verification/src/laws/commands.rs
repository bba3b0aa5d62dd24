//! Commands: what is complained about, how bodies are read, and what is offered for arguments.
use vstd::prelude::*;
use crate::command::{Arg, CandidateView, Command, MusicContext, NoteEntry, Region, candidate_views};
use crate::command::behaviour::{
    CompletionContext, alias_region, body_context, findings, first_context_type, first_pitch,
    offered_candidates,
};
use crate::command::builtins::{
    completion_views, curated_commands_rows, is_row, lemma_curated_commands_distinct,
    lemma_reserved_distinct, reserved_rows,
};
use crate::line_struct::range_between;
use crate::notes::Pitch;
use crate::protocol::Severity;
use crate::vocabulary::{Scope, type_in};

verus! {

/// Whether a command is the reserved word `name`.
pub open spec fn reserved_word(command: Command, name: Seq<char>) -> bool {
    command.name@ == name && exists|k: int|
        0 <= k < reserved_rows().len() && is_row(command, #[trigger] reserved_rows()[k])
}

/// Whether a command is the music function `name` with a signature that this library knows.
pub open spec fn known_function(command: Command, name: Seq<char>) -> bool {
    command.name@ == name && exists|k: int|
        0 <= k < curated_commands_rows().len() && is_row(
            command,
            #[trigger] curated_commands_rows()[k],
        )
}

pub proof fn lemma_reserved_row(command: Command, name: Seq<char>, i: int)
    requires
        reserved_word(command, name),
        0 <= i < reserved_rows().len(),
        reserved_rows()[i].name == name,
    ensures
        is_row(command, reserved_rows()[i]),
{
    lemma_reserved_distinct();
}

pub proof fn lemma_known_row(command: Command, name: Seq<char>, i: int)
    requires
        known_function(command, name),
        0 <= i < curated_commands_rows().len(),
        curated_commands_rows()[i].name == name,
    ensures
        is_row(command, curated_commands_rows()[i]),
{
    lemma_curated_commands_distinct();
}

/// Whether one of the candidates is labelled `text`.
pub open spec fn offers(candidates: Seq<CandidateView>, text: Seq<char>) -> bool {
    exists|k: int| 0 <= k < candidates.len() && (#[trigger] candidates[k]).label == text
}

/// Whether `text` holds `word` between two backquotes.
pub open spec fn quotes(text: Seq<char>, word: Seq<char>) -> bool {
    exists|k: int|
        0 < k && k + word.len() < text.len() && text[k - 1] == '`' && text[k + word.len()] == '`'
            && #[trigger] text.subrange(k, k + word.len()) == word
}

/// The kind of a `\repeat` is right exactly where it is one that the command offers for its first
/// argument, and these are `volta`, `unfold`, `percent`, `tremolo` and `segno`. One that is not is an
/// error at its place, which quotes it; and nothing else is wrong with a call that repeats its music
/// at least once.
pub proof fn law_a_repeat_is_of_a_kind_that_is_offered(
    command: Command,
    ctx: CompletionContext,
    args: Seq<Arg>,
    bytes: Seq<u8>,
    kind: Seq<char>,
)
    requires
        reserved_word(command, "repeat"@),
        args.len() > 0,
        args[0] is BareWord,
        args[0]->BareWord_text@ == kind,
    ensures
        ({
            let offered = offered_candidates(command, 0, ctx);
            let found = findings(command, args, bytes);
            let never = args.len() > 1 && args[1] is Count && args[1]->value == 0;
            &&& offers(offered, kind) <==> kind == "volta"@ || kind == "unfold"@ || kind
                == "percent"@ || kind == "tremolo"@ || kind == "segno"@
            &&& offers(offered, kind) && !never ==> found.len() == 0
            &&& !offers(offered, kind) ==> {
                &&& found.len() == if never { 2int } else { 1 }
                &&& found[0].range == range_between(bytes, args[0]->BareWord_span)
                &&& found[0].severity == Severity::Error
                &&& quotes(found[0].message, kind)
            }
            &&& never ==> {
                &&& found.len() == if offers(offered, kind) { 1int } else { 2 }
                &&& found.last().range == range_between(bytes, args[1]->Count_span)
                &&& found.last().severity == Severity::Error
            }
        }),
{
    let rows = reserved_rows();
    assert(rows[22].name == "repeat"@);
    lemma_reserved_row(command, "repeat"@, 22);
    let offered = offered_candidates(command, 0, ctx);
    assert(completion_views(command.completions@).len() == 1);
    assert(completion_views(command.completions@)[0] == candidate_views(command.completions@[0]@));
    assert(offered == rows[22].completions[0]);
    assert(offered.len() == 5);
    assert(offered[0].label == "volta"@ && offered[1].label == "unfold"@ && offered[2].label
        == "percent"@ && offered[3].label == "tremolo"@ && offered[4].label == "segno"@);
    let found = findings(command, args, bytes);
    if found.len() > 0 && !offers(offered, kind) {
        let message = found[0].message;
        let tail =
            "` is not a `\\repeat` kind LilyPond recognises; expected one of `volta`, `unfold`, `percent`, `tremolo` or `segno`";
        reveal_strlit("`");
        reveal_strlit(
            "` is not a `\\repeat` kind LilyPond recognises; expected one of `volta`, `unfold`, `percent`, `tremolo` or `segno`",
        );
        assert(message == "`"@ + kind + tail@);
        assert(tail@[0] == '`');
        assert(message.subrange(1, 1 + kind.len() as int) =~= kind);
    }
}

/// How the words for an input mode, and for blocks that hold no music, have their bodies read: the
/// long and the short word for a mode alike, and whatever the music around is read as. Note music
/// starts with absolute octaves; the other modes leave how octaves are written as it is.
#[verifier::rlimit(60)]
pub proof fn law_modes_are_read_as_their_words_say(
    command: Command,
    name: Seq<char>,
    args: Seq<Arg>,
    ambient: MusicContext,
    scope: Scope,
)
    requires
        reserved_word(command, name),
    ensures
        ({
            let body = body_context(command, args, ambient, scope);
            &&& (name == "chordmode"@ || name == "chords"@) ==> body == (MusicContext {
                region: Region::ChordMusic,
                ..ambient
            })
            &&& (name == "lyricmode"@ || name == "lyrics"@ || name == "addlyrics"@
                || name == "lyricsto"@) ==> body == (MusicContext {
                region: Region::Lyrics,
                ..ambient
            })
            &&& (name == "drummode"@ || name == "drums"@ || name == "figuremode"@
                || name == "figures"@ || name == "markup"@ || name == "markuplist"@
                || name == "header"@ || name == "paper"@ || name == "layout"@ || name == "midi"@
                || name == "with"@) ==> body == (MusicContext { region: Region::NonNote, ..ambient })
            &&& (name == "notemode"@ || name == "notes"@) ==> body == (MusicContext {
                entry: NoteEntry::Absolute,
                region: Region::NoteMusic,
                ..ambient
            })
            &&& (name == "alternative"@ || name == "set"@ || name == "unset"@
                || name == "tempo"@ || name == "repeat"@ || name == "version"@
                || name == "change"@) ==> body == ambient
        }),
{
    if name == "alternative"@ {
        assert(reserved_rows()[0].name == name);
        lemma_reserved_row(command, name, 0);
    }
    if name == "notemode"@ {
        assert(reserved_rows()[1].name == name);
        lemma_reserved_row(command, name, 1);
    }
    if name == "notes"@ {
        assert(reserved_rows()[2].name == name);
        lemma_reserved_row(command, name, 2);
    }
    if name == "chordmode"@ {
        assert(reserved_rows()[3].name == name);
        lemma_reserved_row(command, name, 3);
    }
    if name == "chords"@ {
        assert(reserved_rows()[4].name == name);
        lemma_reserved_row(command, name, 4);
    }
    if name == "drummode"@ {
        assert(reserved_rows()[5].name == name);
        lemma_reserved_row(command, name, 5);
    }
    if name == "drums"@ {
        assert(reserved_rows()[6].name == name);
        lemma_reserved_row(command, name, 6);
    }
    if name == "figuremode"@ {
        assert(reserved_rows()[7].name == name);
        lemma_reserved_row(command, name, 7);
    }
    if name == "figures"@ {
        assert(reserved_rows()[8].name == name);
        lemma_reserved_row(command, name, 8);
    }
    if name == "lyricmode"@ {
        assert(reserved_rows()[9].name == name);
        lemma_reserved_row(command, name, 9);
    }
    if name == "lyrics"@ {
        assert(reserved_rows()[10].name == name);
        lemma_reserved_row(command, name, 10);
    }
    if name == "addlyrics"@ {
        assert(reserved_rows()[11].name == name);
        lemma_reserved_row(command, name, 11);
    }
    if name == "markup"@ {
        assert(reserved_rows()[12].name == name);
        lemma_reserved_row(command, name, 12);
    }
    if name == "markuplist"@ {
        assert(reserved_rows()[13].name == name);
        lemma_reserved_row(command, name, 13);
    }
    if name == "header"@ {
        assert(reserved_rows()[14].name == name);
        lemma_reserved_row(command, name, 14);
    }
    if name == "paper"@ {
        assert(reserved_rows()[15].name == name);
        lemma_reserved_row(command, name, 15);
    }
    if name == "layout"@ {
        assert(reserved_rows()[16].name == name);
        lemma_reserved_row(command, name, 16);
    }
    if name == "midi"@ {
        assert(reserved_rows()[17].name == name);
        lemma_reserved_row(command, name, 17);
    }
    if name == "with"@ {
        assert(reserved_rows()[18].name == name);
        lemma_reserved_row(command, name, 18);
    }
    if name == "set"@ {
        assert(reserved_rows()[19].name == name);
        lemma_reserved_row(command, name, 19);
    }
    if name == "unset"@ {
        assert(reserved_rows()[20].name == name);
        lemma_reserved_row(command, name, 20);
    }
    if name == "tempo"@ {
        assert(reserved_rows()[21].name == name);
        lemma_reserved_row(command, name, 21);
    }
    if name == "repeat"@ {
        assert(reserved_rows()[22].name == name);
        lemma_reserved_row(command, name, 22);
    }
    if name == "version"@ {
        assert(reserved_rows()[23].name == name);
        lemma_reserved_row(command, name, 23);
    }
    if name == "change"@ {
        assert(reserved_rows()[26].name == name);
        lemma_reserved_row(command, name, 26);
    }
    if name == "lyricsto"@ {
        assert(reserved_rows()[27].name == name);
        lemma_reserved_row(command, name, 27);
    }
}

/// Whether the pitch at `k` is the first one among some arguments.
pub open spec fn first_pitch_at(args: Seq<Arg>, k: int) -> bool {
    0 <= k < args.len() && args[k] is Pitch && forall|j: int|
        0 <= j < k ==> !((#[trigger] args[j]) is Pitch)
}

/// Whether there is no pitch among some arguments.
pub open spec fn no_pitch(args: Seq<Arg>) -> bool {
    forall|j: int| 0 <= j < args.len() ==> !((#[trigger] args[j]) is Pitch)
}

proof fn lemma_first_pitch(args: Seq<Arg>, k: int)
    ensures
        first_pitch_at(args, k) ==> first_pitch(args) == Some(args[k]->Pitch_pitch),
        no_pitch(args) ==> first_pitch(args) is None,
    decreases args.len(),
{
    if args.len() > 0 {
        let rest = args.drop_first();
        lemma_first_pitch(rest, k - 1);
        if first_pitch_at(args, k) && k > 0 {
            assert(!(args[0] is Pitch));
            assert forall|j: int| 0 <= j < k - 1 implies !((#[trigger] rest[j]) is Pitch) by {
                assert(!(args[j + 1] is Pitch));
            }
            assert(rest[k - 1] == args[k]);
        }
        if no_pitch(args) {
            assert(!(args[0] is Pitch));
            assert forall|j: int| 0 <= j < rest.len() implies !((#[trigger] rest[j]) is Pitch) by {
                assert(!(args[j + 1] is Pitch));
            }
        }
    }
}

/// `\relative` reads its music as notes that follow the pitch it is given, and without one as notes
/// that follow middle C.
pub proof fn law_relative_music_follows_its_pitch(
    command: Command,
    args: Seq<Arg>,
    ambient: MusicContext,
    scope: Scope,
    k: int,
)
    requires
        known_function(command, "relative"@),
    ensures
        ({
            let body = body_context(command, args, ambient, scope);
            &&& body.region is NoteMusic
            &&& body.language == ambient.language
            &&& first_pitch_at(args, k) ==> body.entry == NoteEntry::Relative(args[k]->Pitch_pitch)
            &&& no_pitch(args) ==> body.entry == NoteEntry::Relative(
                Pitch { note_name: 0, octave: 0, alteration: 0 },
            )
        }),
{
    assert(curated_commands_rows()[4].name == "relative"@);
    lemma_known_row(command, "relative"@, 4);
    lemma_first_pitch(args, k);
}

/// `\fixed` reads its music as notes in the octave of the pitch it is given, and without one in the
/// octave of an absolute note without marks.
pub proof fn law_fixed_music_keeps_the_octave_of_its_pitch(
    command: Command,
    args: Seq<Arg>,
    ambient: MusicContext,
    scope: Scope,
    k: int,
)
    requires
        known_function(command, "fixed"@),
    ensures
        ({
            let body = body_context(command, args, ambient, scope);
            &&& body.region is NoteMusic
            &&& body.language == ambient.language
            &&& first_pitch_at(args, k) ==> body.entry == NoteEntry::Fixed(
                args[k]->Pitch_pitch.octave,
            )
            &&& no_pitch(args) ==> body.entry == NoteEntry::Fixed(-1i32)
        }),
{
    assert(curated_commands_rows()[5].name == "fixed"@);
    lemma_known_row(command, "fixed"@, 5);
    lemma_first_pitch(args, k);
}

/// Whether contexts of type `name` hold something else than notes and words to be sung.
pub open spec fn holds_no_notes(name: Seq<char>) -> bool {
    name == "NullVoice"@ || name == "ChordNames"@ || name == "FretBoards"@ || name == "FiguredBass"@
        || name == "Dynamics"@ || name == "DrumStaff"@ || name == "DrumVoice"@
}

/// What a body is read as under the context type `name` alone.
pub open spec fn reads_under(ambient: MusicContext, name: Seq<char>, body: MusicContext) -> bool {
    &&& name == "Lyrics"@ ==> body == (MusicContext { region: Region::Lyrics, ..ambient })
    &&& holds_no_notes(name) ==> body == (MusicContext { region: Region::NonNote, ..ambient })
    &&& name != "Lyrics"@ && !holds_no_notes(name) ==> body == ambient
}

/// Whether the context type named at `k` is the first one among some arguments.
pub open spec fn first_type_at(args: Seq<Arg>, k: int) -> bool {
    0 <= k < args.len() && args[k] is ContextType && forall|j: int|
        0 <= j < k ==> !((#[trigger] args[j]) is ContextType)
}

/// Whether the alias at `j` is the first one of a type that settles how bodies are read.
pub open spec fn first_settling(aliases: Seq<String>, j: int) -> bool {
    0 <= j < aliases.len() && (aliases[j]@ == "Lyrics"@ || holds_no_notes(aliases[j]@)) && forall|
        i: int,
    |
        0 <= i < j ==> (#[trigger] aliases[i])@ != "Lyrics"@ && !holds_no_notes(aliases[i]@)
}

proof fn lemma_first_type(args: Seq<Arg>, k: int)
    requires
        first_type_at(args, k),
    ensures
        first_context_type(args) == Some(args[k]->ContextType_name@),
    decreases args.len(),
{
    if k > 0 {
        let rest = args.drop_first();
        assert(!(args[0] is ContextType));
        assert forall|j: int| 0 <= j < k - 1 implies !((#[trigger] rest[j]) is ContextType) by {
            assert(!(args[j + 1] is ContextType));
        }
        assert(rest[k - 1] == args[k]);
        lemma_first_type(rest, k - 1);
    }
}

proof fn lemma_lyrics_have_no_notes()
    ensures
        !holds_no_notes("Lyrics"@),
{
    reveal_strlit("Lyrics");
    reveal_strlit("NullVoice");
    reveal_strlit("ChordNames");
    reveal_strlit("FretBoards");
    reveal_strlit("FiguredBass");
    reveal_strlit("Dynamics");
    reveal_strlit("DrumStaff");
    reveal_strlit("DrumVoice");
    assert("Lyrics"@.len() == 6);
    assert("NullVoice"@.len() == 9);
    assert("ChordNames"@.len() == 10);
    assert("FretBoards"@.len() == 10);
    assert("FiguredBass"@.len() == 11);
    assert("Dynamics"@.len() == 8);
    assert("DrumStaff"@.len() == 9);
    assert("DrumVoice"@.len() == 9);
}

proof fn lemma_settling(aliases: Seq<String>, j: int)
    ensures
        first_settling(aliases, j) ==> alias_region(aliases) == Some(
            if aliases[j]@ == "Lyrics"@ {
                Region::Lyrics
            } else {
                Region::NonNote
            },
        ),
        (forall|i: int|
            0 <= i < aliases.len() ==> (#[trigger] aliases[i])@ != "Lyrics"@ && !holds_no_notes(
                aliases[i]@,
            )) ==> alias_region(aliases) is None,
    decreases aliases.len(),
{
    if aliases.len() > 0 {
        let rest = aliases.drop_first();
        lemma_settling(rest, j - 1);
        assert(aliases[0] == aliases[0]);
        assert forall|i: int| 0 <= i < rest.len() implies #[trigger] rest[i] == aliases[i + 1] by {}
        if first_settling(aliases, j) && j > 0 {
            assert(first_settling(rest, j - 1)) by {
                assert(rest[j - 1] == aliases[j]);
                assert forall|i: int| 0 <= i < j - 1 implies (#[trigger] rest[i])@ != "Lyrics"@
                    && !holds_no_notes(rest[i]@) by {
                    assert(rest[i] == aliases[i + 1]);
                }
            }
        }
        if forall|i: int|
            0 <= i < aliases.len() ==> (#[trigger] aliases[i])@ != "Lyrics"@ && !holds_no_notes(
                aliases[i]@,
            ) {
            assert forall|i: int| 0 <= i < rest.len() implies (#[trigger] rest[i])@ != "Lyrics"@
                && !holds_no_notes(rest[i]@) by {
                assert(rest[i] == aliases[i + 1]);
            }
        }
    }
}

/// `\new` and `\context` have their body read as the type of the context says: one that no file
/// defines by its name, and one that a file defines by its own name or else by the first of its
/// aliases that settles it. All other contexts hold the music that stands around them.
pub proof fn law_a_context_is_read_as_its_type_says(
    command: Command,
    args: Seq<Arg>,
    ambient: MusicContext,
    scope: Scope,
    k: int,
    j: int,
)
    requires
        reserved_word(command, "new"@) || reserved_word(command, "context"@),
        first_type_at(args, k),
    ensures
        ({
            let name = args[k]->ContextType_name@;
            let body = body_context(command, args, ambient, scope);
            match type_in(scope.layers@, name) {
                None => reads_under(ambient, name, body),
                Some(found) => {
                    let own = found.name@;
                    let settles = own == "Lyrics"@ || holds_no_notes(own);
                    &&& settles ==> reads_under(ambient, own, body)
                    &&& !settles && first_settling(found.aliases@, j) ==> reads_under(
                        ambient,
                        found.aliases@[j]@,
                        body,
                    )
                    &&& !settles && (forall|i: int|
                        0 <= i < found.aliases@.len() ==> (#[trigger] found.aliases@[i])@
                            != "Lyrics"@ && !holds_no_notes(found.aliases@[i]@)) ==> body == ambient
                },
            }
        }),
{
    if reserved_word(command, "new"@) {
        assert(reserved_rows()[24].name == "new"@);
        lemma_reserved_row(command, "new"@, 24);
    } else {
        assert(reserved_rows()[25].name == "context"@);
        lemma_reserved_row(command, "context"@, 25);
    }
    lemma_first_type(args, k);
    lemma_lyrics_have_no_notes();
    match type_in(scope.layers@, args[k]->ContextType_name@) {
        Some(found) => lemma_settling(found.aliases@, j),
        None => {},
    }
}

/// What `\clef` offers are the names of clefs, and what `\key` offers for its mode are the modes, major
/// and minor first.
#[verifier::rlimit(40)]
pub proof fn law_clefs_and_modes_are_offered_by_name(
    command: Command,
    ctx: CompletionContext,
    name: Seq<char>,
)
    ensures
        known_function(command, "clef"@) ==> (offers(offered_candidates(command, 0, ctx), name)
            <==> name == "treble"@ || name == "bass"@ || name == "alto"@ || name == "tenor"@
            || name == "percussion"@ || name == "treble_8"@),
        known_function(command, "key"@) ==> (offers(offered_candidates(command, 1, ctx), name)
            <==> name == "major"@ || name == "minor"@ || name == "ionian"@ || name == "dorian"@
            || name == "phrygian"@ || name == "lydian"@ || name == "mixolydian"@ || name
            == "aeolian"@ || name == "locrian"@),
        known_function(command, "key"@) ==> offered_candidates(command, 0, ctx).len() == 0,
{
    let rows = curated_commands_rows();
    if known_function(command, "clef"@) {
        assert(rows[1].name == "clef"@);
        lemma_known_row(command, "clef"@, 1);
        let views = completion_views(command.completions@);
        assert(views.len() == 1);
        assert(views[0] == candidate_views(command.completions@[0]@));
        let offered = offered_candidates(command, 0, ctx);
        assert(offered == rows[1].completions[0]);
        assert(offered.len() == 6);
        assert(offered[0].label == "treble"@ && offered[1].label == "bass"@ && offered[2].label
            == "alto"@ && offered[3].label == "tenor"@ && offered[4].label == "percussion"@
            && offered[5].label == "treble_8"@);
    }
    if known_function(command, "key"@) {
        assert(rows[2].name == "key"@);
        lemma_known_row(command, "key"@, 2);
        let views = completion_views(command.completions@);
        assert(views.len() == 2);
        assert(views[0] == candidate_views(command.completions@[0]@));
        assert(views[1] == candidate_views(command.completions@[1]@));
        assert(offered_candidates(command, 0, ctx) == rows[2].completions[0]);
        let offered = offered_candidates(command, 1, ctx);
        assert(offered == rows[2].completions[1]);
        assert(offered.len() == 9);
        assert(offered[0].label == "major"@ && offered[1].label == "minor"@ && offered[2].label
            == "ionian"@ && offered[3].label == "dorian"@ && offered[4].label == "phrygian"@);
        assert(offered[5].label == "lydian"@ && offered[6].label == "mixolydian"@
            && offered[7].label == "aeolian"@ && offered[8].label == "locrian"@);
    }
}

/// A block inside music is read as the music around it; at the top level of a file it is note music.
pub proof fn law_a_block_is_read_as_what_it_stands_in(region: Region)
    ensures
        region is NoteContext ==> region.nested() is NoteMusic,
        region !is NoteContext ==> region.nested() == region,
{
}

} // verus!
