//! Music events as the note analysis resolves them: pitches, durations, and where each was
//! written.
use vstd::prelude::*;
use crate::line_struct::Span;

verus! {

/// A resolved pitch: the note name counted from C, the octave (LilyPond's internal value, a plain
/// `c` is -1) and the alteration.
#[derive(Debug, Clone, Copy, PartialEq, Eq, Structural)]
pub struct Pitch {
    pub note_name: u8,
    pub octave: i32,
    pub alteration: i8,
}

/// The length of an event, by its canonical spelling (`4`, `2.`).
#[derive(Debug)]
pub struct Duration {
    pub spelling: String,
}

impl View for Duration {
    type V = Seq<char>;

    open spec fn view(&self) -> Seq<char> {
        self.spelling@
    }
}

/// The spelling of the duration in force before any is written: a quarter.
pub open spec fn default_duration() -> Seq<char> {
    "4"@
}

impl Duration {
    /// The duration in force before any is written.
    pub fn standard() -> (r: Duration)
        ensures
            r@ == default_duration(),
    {
        Duration { spelling: "4".to_string() }
    }

    /// The duration as it is written after a note.
    pub fn to_text(&self) -> (r: String)
        ensures
            r@ == self@,
    {
        self.spelling.clone()
    }

    /// The same duration once more.
    pub fn copy(&self) -> (r: Duration)
        ensures
            r == *self,
    {
        Duration { spelling: self.spelling.clone() }
    }

    pub fn same(&self, other: &Duration) -> (r: bool)
        ensures
            r == (self@ == other@),
    {
        crate::text::same(self.spelling.as_str(), other.spelling.as_str())
    }
}

/// One note of a chord.
#[derive(Debug, Clone, Copy, PartialEq, Eq, Structural)]
pub struct ChordNote {
    pub span: Span,
    pub pitch: Pitch,
}

#[derive(Debug)]
pub enum EventKind {
    /// A note. `pitch_written` is whether the note name was spelled out.
    Note { pitch: Pitch, pitch_written: bool },
    Chord(Vec<ChordNote>),
    /// `q`, with the notes of the chord it repeats.
    ChordRepetition(Vec<ChordNote>),
    Rest,
    MultiMeasureRest,
    Skip,
    ChordModeEvent,
}

/// The reference a note in `\relative` mode resolves its octave against, as a pitch and as it would
/// be written.
#[derive(Debug)]
pub struct RelativeReference {
    pub text: String,
    pub pitch: Pitch,
}

/// A resolved music event.
#[derive(Debug)]
pub struct Event {
    /// The whole event, post-events and all.
    pub span: Span,
    /// Where the note value ends and its post-events begin.
    pub value_end: usize,
    pub kind: EventKind,
    pub duration: Duration,
    pub duration_written: bool,
    /// The reference in force just before the event, inside `\relative`.
    pub relative: Option<RelativeReference>,
}

/// Whether events come in source order, and none reaches into the next.
pub open spec fn in_order(events: Seq<Event>) -> bool {
    &&& forall|i: int| 0 <= i < events.len() ==> (#[trigger] events[i]).span.start
        <= events[i].span.end
    &&& forall|i: int, j: int|
        0 <= i < j < events.len() ==> (#[trigger] events[i]).span.end <= (
        #[trigger] events[j]).span.start
}

/// Whether an event shares a byte with `[start, end)`.
pub open spec fn overlaps(event: Event, start: int, end: int) -> bool {
    event.span.start < end && event.span.end > start
}

/// The octave a relative note lands in without marks, shifted by `marks`: the one that puts it
/// within a fourth of `outer`, counted in note names.
pub open spec fn relative_octave_of(outer: Pitch, note_name: u8, marks: int) -> int {
    let steps = note_name - outer.note_name;
    outer.octave + marks + if steps > 3 {
        -1int
    } else if steps < -3 {
        1int
    } else {
        0int
    }
}

/// A note in `\relative` lies within a fourth of its reference, when it carries no marks.
pub proof fn law_relative_octave_is_nearest(outer: Pitch, note_name: u8)
    requires
        outer.note_name < 7,
        note_name < 7,
    ensures
        ({
            let octave = relative_octave_of(outer, note_name, 0);
            let steps = 7 * (octave - outer.octave) + note_name - outer.note_name;
            -3 <= steps <= 3
        }),
{
}

/// A problem the note analysis found, with where.
#[derive(Debug, Clone, Copy, PartialEq, Eq, Structural)]
pub enum Problem {
    NotANote(Span),
    DanglingColon(Span),
}

impl Problem {
    pub open spec fn place(self) -> Span {
        match self {
            Problem::NotANote(span) => span,
            Problem::DanglingColon(span) => span,
        }
    }

    pub fn span(&self) -> (r: Span)
        ensures
            r == self.place(),
    {
        match self {
            Problem::NotANote(span) => *span,
            Problem::DanglingColon(span) => *span,
        }
    }
}

} // verus!
