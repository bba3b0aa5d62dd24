//! Note-state helpers shared by the refactorings that move music between contexts.
//!
//! When a run of music is detached from or spliced into its surroundings, a note that omitted its
//! duration or (in `\relative` mode) its octave would resolve differently. These helpers locate the
//! note that carries an event's octave and re-spell its marks.
use vstd::prelude::*;
use crate::document::Document;
use crate::line_struct::{Span, range_between};
use crate::finding::last_below;
use crate::notes::{Event, EventKind, Pitch, relative_octave_of};
use crate::protocol::{EditView, TextEdit};
use crate::text::{
    can_cut, chars_of, cut, cut_of, holds, is_letter, lemma_ascii_len, lemma_replaced_inside, letter,
    replaced,
};

verus! {

/// The resolved pitch an event carries for relative-octave purposes: a note's pitch, or a chord's
/// first note.
pub open spec fn pitch_carried(event: Event) -> Option<Pitch> {
    match event.kind {
        EventKind::Note { pitch, .. } => Some(pitch),
        EventKind::Chord(notes) => if notes@.len() > 0 {
            Some(notes@[0].pitch)
        } else {
            None
        },
        EventKind::ChordRepetition(notes) => if notes@.len() > 0 {
            Some(notes@[0].pitch)
        } else {
            None
        },
        _ => None,
    }
}

pub fn pitch_of(event: &Event) -> (r: Option<Pitch>)
    ensures
        r == pitch_carried(*event),
{
    match &event.kind {
        EventKind::Note { pitch, .. } => Some(*pitch),
        EventKind::Chord(notes) => if notes.len() > 0 {
            Some(notes[0].pitch)
        } else {
            None
        },
        EventKind::ChordRepetition(notes) => if notes.len() > 0 {
            Some(notes[0].pitch)
        } else {
            None
        },
        _ => None,
    }
}

/// The note whose octave marks carry an event's relative reference: the note itself, without its
/// post-events, or a chord's first note.
pub open spec fn note_leading(event: Event) -> Option<(Span, Pitch)> {
    match event.kind {
        EventKind::Note { pitch, .. } => Some(
            (Span { start: event.span.start, end: event.value_end }, pitch),
        ),
        EventKind::Chord(notes) => if notes@.len() > 0 {
            Some((notes@[0].span, notes@[0].pitch))
        } else {
            None
        },
        _ => None,
    }
}

pub fn leading_note(event: &Event) -> (r: Option<(Span, Pitch)>)
    ensures
        r == note_leading(*event),
{
    match &event.kind {
        EventKind::Note { pitch, .. } => Some(
            (Span::new(event.span.start, event.value_end), *pitch),
        ),
        EventKind::Chord(notes) => if notes.len() > 0 {
            Some((notes[0].span, notes[0].pitch))
        } else {
            None
        },
        _ => None,
    }
}

/// The octave a relative note lands in: the one that puts it within a fourth of `outer`, shifted
/// by `marks`.
pub fn relative_octave(outer: Pitch, note_name: u8, marks: i32) -> (r: i64)
    ensures
        r == relative_octave_of(outer, note_name, marks as int),
{
    let steps: i64 = note_name as i64 - outer.note_name as i64;
    let shift: i64 = if steps > 3 {
        -1
    } else if steps < -3 {
        1
    } else {
        0
    };
    outer.octave as i64 + marks as i64 + shift
}

/// How many letters `text` starts with.
pub open spec fn letters(text: Seq<char>, from: int) -> nat
    decreases text.len() - from,
{
    if 0 <= from < text.len() && letter(text[from]) {
        1 + letters(text, from + 1)
    } else {
        0
    }
}

/// Whether a character raises or lowers a note by an octave.
pub open spec fn octave_mark(c: char) -> bool {
    c == '\'' || c == ','
}

/// How many octave marks stand in `text` from `from` on.
pub open spec fn marks_run(text: Seq<char>, from: int) -> nat
    decreases text.len() - from,
{
    if 0 <= from < text.len() && octave_mark(text[from]) {
        1 + marks_run(text, from + 1)
    } else {
        0
    }
}

proof fn lemma_runs(text: Seq<char>, from: int)
    requires
        0 <= from <= text.len(),
    ensures
        from + letters(text, from) <= text.len(),
        from + marks_run(text, from) <= text.len(),
        forall|i: int| from <= i < from + letters(text, from) ==> letter(#[trigger] text[i]),
        from + letters(text, from) < text.len() ==> !letter(text[from + letters(text, from)]),
        forall|i: int|
            from <= i < from + marks_run(text, from) ==> octave_mark(#[trigger] text[i]),
        from + marks_run(text, from) < text.len() ==> !octave_mark(
            text[from + marks_run(text, from)],
        ),
    decreases text.len() - from,
{
    if from < text.len() {
        lemma_runs(text, from + 1);
    }
}

/// Octave marks that adjust a relative note by `delta` octaves.
pub open spec fn marks_for(delta: int) -> Seq<char> {
    if delta >= 0 {
        Seq::new(delta as nat, |i: int| '\'')
    } else {
        Seq::new((-delta) as nat, |i: int| ',')
    }
}

/// The net octave shift of a run of marks.
pub open spec fn net_shift(marks: Seq<char>) -> int
    decreases marks.len(),
{
    if marks.len() == 0 {
        0
    } else {
        net_shift(marks.drop_last()) + if marks.last() == '\'' {
            1int
        } else if marks.last() == ',' {
            -1int
        } else {
            0int
        }
    }
}

/// The length of a note's leading name and accidental (`cis` of `cis'8`), after which octave marks
/// go.
pub fn leading_letters(text: &str) -> (r: usize)
    ensures
        r == letters(text@, 0),
        r <= text@.len(),
{
    let chars = chars_of(text);
    let mut i: usize = 0;
    while i < chars.len() && is_letter(chars[i])
        invariant
            chars@ == text@,
            i <= chars@.len(),
            letters(text@, 0) == i + letters(text@, i as int),
        decreases chars.len() - i,
    {
        i = i + 1;
    }
    i
}

/// Octave marks that adjust a relative note by `delta` octaves: `delta` `'`s upward, or `-delta`
/// `,`s downward.
pub fn relative_marks(delta: i64) -> (r: String)
    requires
        delta > i64::MIN,
    ensures
        r@ == marks_for(delta as int),
{
    let mut out = String::new();
    let mut k: i64 = 0;
    let count: i64 = if delta >= 0 {
        delta
    } else {
        -delta
    };
    assert(out@ =~= marks_for(0));
    while k < count
        invariant
            0 <= k <= count,
            count == if delta >= 0 {
                delta as int
            } else {
                -delta
            },
            out@ == if delta >= 0 {
                marks_for(k as int)
            } else {
                marks_for(-k)
            },
        decreases count - k,
    {
        let ghost before = out@;
        if delta >= 0 {
            vstd::string::StringExecFns::append(&mut out, "'");
            proof {
                reveal_strlit("'");
            }
            assert(out@ =~= marks_for(k + 1));
        } else {
            vstd::string::StringExecFns::append(&mut out, ",");
            proof {
                reveal_strlit(",");
            }
            assert(out@ =~= marks_for(-(k + 1)));
        }
        k = k + 1;
    }
    out
}

/// The marks that a note of pitch `pitch` carries against the reference `outer`.
pub open spec fn wanted_marks(pitch: Pitch, outer: Pitch) -> Seq<char> {
    marks_for(pitch.octave - relative_octave_of(outer, pitch.note_name, 0))
}

/// Where the octave marks of the note at `span` stand, and the marks it should carry to resolve to
/// `pitch` against the reference `outer`. None where they are right already, or where an octave
/// check (`=`) pins the octave.
pub open spec fn respelling(src: Seq<char>, span: Span, pitch: Pitch, outer: Pitch) -> Option<
    (Span, Seq<char>),
> {
    let text = cut_of(src, span.start as int, span.end as int);
    let head = letters(text, 0) as int;
    let marks = marks_run(text, head) as int;
    let wanted = wanted_marks(pitch, outer);
    if text.contains('=') || text.subrange(head, head + marks) == wanted {
        None
    } else {
        Some(
            (
                Span {
                    start: (span.start + head) as usize,
                    end: (span.start + head + marks) as usize,
                },
                wanted,
            ),
        )
    }
}

/// A piece of text is no longer, in characters, than the bytes it was cut from.
pub proof fn lemma_cut_len(src: Seq<char>, from: usize, to: usize)
    ensures
        from + cut_of(src, from as int, to as int).len() <= usize::MAX,
{
    if crate::text::can_cut(src, from as int, to as int) {
        crate::text::lemma_piece_bytes(src, from as int, to as int);
        let piece = cut_of(src, from as int, to as int);
        lemma_chars_at_most_bytes(piece);
    }
}

proof fn lemma_chars_at_most_bytes(text: Seq<char>)
    ensures
        text.len() <= vstd::utf8::encode_utf8(text).len(),
    decreases text.len(),
{
    if text.len() > 0 {
        lemma_chars_at_most_bytes(text.drop_first());
    }
}

/// The marks to write on the note at `span`, and where, as [`respelling`] says.
pub fn octave_respelling(src: &str, span: Span, pitch: Pitch, outer: Pitch) -> (r: Option<
    (Span, String),
>)
    ensures
        match r {
            Some((marks, text)) => respelling(src@, span, pitch, outer) == Some((marks, text@)),
            None => respelling(src@, span, pitch, outer) is None,
        },
{
    let text = cut(src, span.start, span.end);
    // An octave check (`c='`) pins the octave regardless of reference.
    if holds(text, '=') {
        return None;
    }
    let chars = chars_of(text);
    let head = leading_letters(text);
    let mut end: usize = head;
    proof {
        lemma_runs(text@, 0);
        lemma_runs(text@, head as int);
        lemma_cut_len(src@, span.start, span.end);
    }
    while end < chars.len() && (chars[end] == '\'' || chars[end] == ',')
        invariant
            chars@ == text@,
            head <= end <= chars@.len(),
            marks_run(text@, head as int) == end - head + marks_run(text@, end as int),
        decreases chars.len() - end,
    {
        end = end + 1;
    }
    let wanted = relative_marks(
        pitch.octave as i64 - relative_octave(outer, pitch.note_name, 0),
    );
    let written = vstd::string::StrSliceExecFns::substring_char(text, head, end);
    if crate::text::same(written, wanted.as_str()) {
        return None;
    }
    Some((Span::new(span.start + head, span.start + end), wanted))
}

/// The edit that re-spells the octave marks of the note at `span`.
pub open spec fn octave_edit(document: Document, span: Span, pitch: Pitch, outer: Pitch) -> Option<
    EditView,
> {
    match respelling(document.text@, span, pitch, outer) {
        Some((marks, new_text)) => Some(
            EditView { range: range_between(document.bytes(), marks), new_text },
        ),
        None => None,
    }
}

pub fn octave_fix(document: &Document, span: Span, pitch: Pitch, outer: Pitch) -> (r: Option<
    TextEdit,
>)
    requires
        document.wf(),
    ensures
        match r {
            Some(edit) => octave_edit(*document, span, pitch, outer) == Some(edit@),
            None => octave_edit(*document, span, pitch, outer) is None,
        },
{
    match octave_respelling(document.text.as_str(), span, pitch, outer) {
        Some((marks, new_text)) => Some(
            TextEdit { range: document.line_index.range_of(marks), new_text },
        ),
        None => None,
    }
}

/// The marks written for a shift shift by that much.
pub proof fn law_marks_shift_by_what_they_are_for(delta: int)
    ensures
        net_shift(marks_for(delta)) == delta,
    decreases if delta >= 0 {
        delta
    } else {
        -delta
    },
{
    if delta > 0 {
        law_marks_shift_by_what_they_are_for(delta - 1);
        assert(marks_for(delta).drop_last() =~= marks_for(delta - 1));
    } else if delta < 0 {
        law_marks_shift_by_what_they_are_for(delta + 1);
        assert(marks_for(delta).drop_last() =~= marks_for(delta + 1));
    }
}

/// A note with re-spelled marks resolves to the pitch it had, against its new reference; and a
/// note left alone does so with the marks it carries, unless an octave check pins it.
pub proof fn law_respelling_keeps_the_octave(src: Seq<char>, span: Span, pitch: Pitch, outer: Pitch)
    ensures
        match respelling(src, span, pitch, outer) {
            Some((_, marks)) => relative_octave_of(outer, pitch.note_name, net_shift(marks))
                == pitch.octave,
            None => {
                let text = cut_of(src, span.start as int, span.end as int);
                let head = letters(text, 0) as int;
                text.contains('=') || relative_octave_of(
                    outer,
                    pitch.note_name,
                    net_shift(text.subrange(head, head + marks_run(text, head))),
                ) == pitch.octave
            },
        },
{
    law_marks_shift_by_what_they_are_for(
        pitch.octave - relative_octave_of(outer, pitch.note_name, 0),
    );
}

/// The letters of two texts in a row, where the first is all letters.
proof fn lemma_letters_after(head: Seq<char>, rest: Seq<char>, from: int)
    requires
        0 <= from <= head.len(),
        forall|i: int| 0 <= i < head.len() ==> letter(#[trigger] head[i]),
    ensures
        letters(head + rest, from) == head.len() - from + letters(rest, 0),
    decreases head.len() - from,
{
    if from < head.len() {
        assert((head + rest)[from] == head[from]);
        lemma_letters_after(head, rest, from + 1);
    } else {
        lemma_letters_shift(head, rest, 0);
    }
}

proof fn lemma_letters_shift(head: Seq<char>, rest: Seq<char>, k: int)
    requires
        0 <= k <= rest.len(),
    ensures
        letters(head + rest, head.len() + k) == letters(rest, k),
    decreases rest.len() - k,
{
    if k < rest.len() {
        lemma_letters_shift(head, rest, k + 1);
    }
}

proof fn lemma_marks_shift(head: Seq<char>, rest: Seq<char>, k: int)
    requires
        0 <= k <= rest.len(),
    ensures
        marks_run(head + rest, head.len() + k) == marks_run(rest, k),
    decreases rest.len() - k,
{
    if k < rest.len() {
        lemma_marks_shift(head, rest, k + 1);
    }
}

/// The marks of two texts in a row, where the first is all marks.
proof fn lemma_marks_after(head: Seq<char>, rest: Seq<char>, from: int)
    requires
        0 <= from <= head.len(),
        forall|i: int| 0 <= i < head.len() ==> octave_mark(#[trigger] head[i]),
    ensures
        marks_run(head + rest, from) == head.len() - from + marks_run(rest, 0),
    decreases head.len() - from,
{
    if from < head.len() {
        assert((head + rest)[from] == head[from]);
        lemma_marks_after(head, rest, from + 1);
    } else {
        lemma_marks_shift(head, rest, 0);
    }
}

/// The marks of a note's name, its marks and what follows them, where the marks are right.
proof fn lemma_respelled_runs(name: Seq<char>, marks: Seq<char>, rest: Seq<char>)
    requires
        forall|i: int| 0 <= i < name.len() ==> letter(#[trigger] name[i]),
        forall|i: int| 0 <= i < marks.len() ==> octave_mark(#[trigger] marks[i]),
        rest.len() > 0 ==> !octave_mark(rest[0]),
        marks.len() == 0 ==> marks_run(rest, letters(rest, 0) as int) == 0,
    ensures
        ({
            let now = name + marks + rest;
            let head = letters(now, 0) as int;
            now.subrange(head, head + marks_run(now, head)) == marks
        }),
{
    let now = name + marks + rest;
    assert(now =~= name + (marks + rest));
    lemma_letters_after(name, marks + rest, 0);
    lemma_runs(rest, 0);
    if marks.len() > 0 {
        assert((marks + rest)[0] == marks[0]);
        assert(octave_mark(marks[0]));
        assert(letters(marks + rest, 0) == 0);
        lemma_marks_shift(name, marks + rest, 0);
        lemma_marks_after(marks, rest, 0);
        assert(marks_run(rest, 0) == 0);
        let head = name.len() as int;
        assert(now.subrange(head, head + marks.len()) =~= marks);
    } else {
        assert(marks + rest =~= rest);
        lemma_marks_shift(name, rest, letters(rest, 0) as int);
        let far = name.len() as int + letters(rest, 0);
        assert(now.subrange(far, far) =~= marks);
    }
}

/// What follows the octave marks of the note at `span`.
pub open spec fn behind_marks(src: Seq<char>, span: Span) -> Seq<char> {
    let text = cut_of(src, span.start as int, span.end as int);
    let head = letters(text, 0) as int;
    text.subrange(head + marks_run(text, head), text.len() as int)
}

/// The extent of the note at `span` once the marks at `marks` were replaced by `with`.
pub open spec fn respelled_span(span: Span, marks: Span, with: Seq<char>) -> Span {
    Span { start: span.start, end: (span.end - (marks.end - marks.start) + with.len()) as usize }
}

/// A note is re-spelled inside its own extent, by marks in one direction that differ from the ones it
/// carries; never where an octave check pins it; and once it is re-spelled it needs no second
/// re-spelling. The marks are those of one note: where they are all taken away, what follows them is
/// not the name and the marks of another one.
pub proof fn law_a_respelled_note_stays(src: Seq<char>, span: Span, pitch: Pitch, outer: Pitch)
    requires
        can_cut(src, span.start as int, span.end as int),
        respelling(src, span, pitch, outer) is Some,
        span.end + wanted_marks(pitch, outer).len() <= usize::MAX,
        wanted_marks(pitch, outer).len() == 0 ==> marks_run(
            behind_marks(src, span),
            letters(behind_marks(src, span), 0) as int,
        ) == 0,
    ensures
        ({
            let (marks, text) = respelling(src, span, pitch, outer)->0;
            let after = replaced(src, marks.start as int, marks.end as int, text);
            &&& span.start <= marks.start <= marks.end <= span.end
            &&& (forall|i: int| 0 <= i < text.len() ==> (#[trigger] text[i]) == '\'') || (forall|
                i: int,
            |
                0 <= i < text.len() ==> (#[trigger] text[i]) == ',')
            &&& text != cut_of(src, marks.start as int, marks.end as int)
            &&& !cut_of(src, span.start as int, span.end as int).contains('=')
            &&& respelling(after, respelled_span(span, marks, text), pitch, outer) is None
        }),
{
    let text = cut_of(src, span.start as int, span.end as int);
    let (marks, wanted) = respelling(src, span, pitch, outer)->0;
    let head = letters(text, 0) as int;
    let count = marks_run(text, head) as int;
    lemma_runs(text, 0);
    lemma_runs(text, head);
    let name = text.subrange(0, head);
    let written = text.subrange(head, head + count);
    let rest = behind_marks(src, span);
    assert(text =~= name + written + rest);
    assert forall|i: int| 0 <= i < name.len() implies letter(#[trigger] name[i]) by {
        assert(letter(text[i]));
    }
    assert forall|i: int| 0 <= i < written.len() implies octave_mark(#[trigger] written[i]) by {
        assert(octave_mark(text[head + i]));
    }
    assert(rest.len() > 0 ==> !octave_mark(rest[0])) by {
        if rest.len() > 0 {
            assert(rest[0] == text[head + count]);
        }
    }
    lemma_ascii_len(name);
    lemma_ascii_len(written);
    lemma_ascii_len(wanted);
    lemma_replaced_inside(
        src,
        span.start as int,
        span.end as int,
        name,
        written,
        rest,
        wanted,
    );
    lemma_respelled_runs(name, wanted, rest);
    let now = name + wanted + rest;
    assert(!now.contains('=')) by {
        if now.contains('=') {
            let i = choose|i: int| 0 <= i < now.len() && now[i] == '=';
            if i < head {
                assert(text[i] == '=');
            } else if i < head + wanted.len() {
                assert(octave_mark(wanted[i - head]));
            } else {
                assert(text[i - wanted.len() + count] == '=');
            }
        }
    }
}

/// Which events are notes whose name was written out.
pub open spec fn written_note(events: Seq<Event>) -> spec_fn(int) -> bool {
    |k: int|
        match events[k].kind {
            EventKind::Note { pitch_written, .. } => pitch_written,
            _ => false,
        }
}

/// The pitch that the bare duration at `i` inherits, as the last note written before it spells it:
/// its name and, outside relative music, its octave marks. None for an event that is no bare
/// duration, or that inherits from nothing.
pub open spec fn pitch_spelled(events: Seq<Event>, i: int, src: Seq<char>) -> Option<Seq<char>> {
    match events[i].kind {
        EventKind::Note { pitch_written, .. } => if pitch_written {
            None
        } else {
            match last_below(i, written_note(events)) {
                Some(k) => {
                    let note = events[k as int];
                    let text = cut_of(src, note.span.start as int, note.value_end as int);
                    let name = letters(text, 0) as int;
                    if events[i].relative is Some {
                        Some(text.subrange(0, name))
                    } else {
                        Some(text.subrange(0, name + marks_run(text, name)))
                    }
                },
                None => None,
            }
        },
        _ => None,
    }
}

/// The pitch to write on the bare duration at `i`.
pub fn explicit_pitch(events: &Vec<Event>, i: usize, src: &str) -> (r: Option<String>)
    requires
        i < events@.len(),
    ensures
        match r {
            Some(text) => pitch_spelled(events@, i as int, src@) == Some(text@),
            None => pitch_spelled(events@, i as int, src@) is None,
        },
{
    match &events[i].kind {
        EventKind::Note { pitch_written, .. } => {
            if *pitch_written {
                return None;
            }
        },
        _ => {
            return None;
        },
    }
    let ghost fits = written_note(events@);
    let mut k: usize = i;
    while k > 0
        invariant
            k <= i < events@.len(),
            fits == written_note(events@),
            last_below(i as int, fits) == last_below(k as int, fits),
            events@[i as int].kind matches EventKind::Note { pitch_written, .. } && !pitch_written,
        decreases k,
    {
        let written = match &events[k - 1].kind {
            EventKind::Note { pitch_written, .. } => *pitch_written,
            _ => false,
        };
        if written {
            return Some(spelling(&events[k - 1], events[i].relative.is_some(), src));
        }
        k = k - 1;
    }
    None
}

/// The name of a written note and, outside relative music, its octave marks.
fn spelling(note: &Event, relative: bool, src: &str) -> (r: String)
    ensures
        ({
            let text = cut_of(src@, note.span.start as int, note.value_end as int);
            let name = letters(text, 0) as int;
            r@ == if relative {
                text.subrange(0, name)
            } else {
                text.subrange(0, name + marks_run(text, name))
            }
        }),
{
    let text = cut(src, note.span.start, note.value_end);
    let chars = chars_of(text);
    let name = leading_letters(text);
    let mut end: usize = name;
    if !relative {
        while end < chars.len() && (chars[end] == '\'' || chars[end] == ',')
            invariant
                chars@ == text@,
                name <= end <= chars@.len(),
                marks_run(text@, name as int) == end - name + marks_run(text@, end as int),
            decreases chars.len() - end,
        {
            end = end + 1;
        }
    }
    vstd::string::StrSliceExecFns::substring_char(text, 0, end).to_string()
}

} // verus!
