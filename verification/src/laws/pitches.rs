//! Pitches: which note of an event leads, and how octave marks are read and written.
use vstd::prelude::*;
use vstd::utf8::*;
use crate::code_action::note_state::{
    letters, marks_run, net_shift, note_leading, pitch_carried, respelling,
};
use crate::laws::arguments::raised;
use crate::line_struct::Span;
use crate::notes::{Event, EventKind, Pitch, relative_octave_of};
use crate::text::{cut_of, lemma_ascii_len};

verus! {

/// The music that follows an event in relative music starts from its pitch, and from that of its first
/// note where it is a chord or repeats one; what has no pitch leaves none. What can be respelled is a
/// note by its own text and a chord by its first note's.
pub proof fn law_a_chord_leads_with_its_first_note(event: Event)
    ensures
        match event.kind {
            EventKind::Note { pitch, .. } => pitch_carried(event) == Some(pitch) && note_leading(
                event,
            ) == Some((Span { start: event.span.start, end: event.value_end }, pitch)),
            EventKind::Chord(notes) => notes@.len() > 0 ==> pitch_carried(event) == Some(
                notes@[0].pitch,
            ) && note_leading(event) == Some((notes@[0].span, notes@[0].pitch)),
            EventKind::ChordRepetition(notes) => (notes@.len() > 0 ==> pitch_carried(event) == Some(
                notes@[0].pitch,
            )) && note_leading(event) is None,
            _ => pitch_carried(event) is None && note_leading(event) is None,
        },
{
}

/// Octave marks shift a note up with each `'` and down with each `,`, one octave each.
pub proof fn law_octave_marks_shift_by_one_octave_each(marks: Seq<char>)
    ensures
        (forall|k: int| 0 <= k < marks.len() ==> #[trigger] marks[k] == '\'' || marks[k] == ',')
            ==> net_shift(marks) == raised(marks),
    decreases marks.len(),
{
    if marks.len() > 0 {
        let rest = marks.drop_last();
        law_octave_marks_shift_by_one_octave_each(rest);
        if forall|k: int| 0 <= k < marks.len() ==> #[trigger] marks[k] == '\'' || marks[k] == ',' {
            assert forall|k: int| 0 <= k < rest.len() implies #[trigger] rest[k] == '\'' || rest[k]
                == ',' by {
                assert(rest[k] == marks[k]);
            }
            assert(marks[marks.len() - 1] == '\'' || marks[marks.len() - 1] == ',');
        }
    }
}

/// A mark shifts a relative note by one octave, wherever it follows.
pub proof fn law_marks_add_to_the_nearest_octave(outer: Pitch, note_name: u8, marks: int)
    ensures
        relative_octave_of(outer, note_name, marks) == relative_octave_of(outer, note_name, 0)
            + marks,
{
}

proof fn lemma_letters(name: Seq<char>, behind: Seq<char>, from: int)
    requires
        0 <= from <= name.len(),
        forall|k: int| 0 <= k < name.len() ==> 'a' <= #[trigger] name[k] && name[k] <= 'z',
        behind.len() > 0 ==> !crate::text::letter(behind[0]),
    ensures
        letters(name + behind, from) == name.len() - from,
    decreases name.len() - from,
{
    let text = name + behind;
    if from < name.len() {
        assert(text[from] == name[from]);
        lemma_letters(name, behind, from + 1);
    } else if behind.len() > 0 {
        assert(text[from] == behind[0]);
    }
}

proof fn lemma_marks_run(head: Seq<char>, marks: Seq<char>, behind: Seq<char>, from: int)
    requires
        0 <= from <= marks.len(),
        forall|k: int| 0 <= k < marks.len() ==> #[trigger] marks[k] == '\'' || marks[k] == ',',
        behind.len() > 0 ==> behind[0] != '\'' && behind[0] != ',',
    ensures
        marks_run(head + marks + behind, head.len() + from) == marks.len() - from,
    decreases marks.len() - from,
{
    let text = head + marks + behind;
    let at = head.len() + from;
    if from < marks.len() {
        assert(text[at] == marks[from]);
        lemma_marks_run(head, marks, behind, from + 1);
    } else if behind.len() > 0 {
        assert(text[at] == behind[0]);
    }
}

/// Respelling a note changes the octave marks right behind its name and nothing else: to the marks that
/// take the octave nearest to the note before to the note's own. A note that carries an octave check,
/// or these marks already, is left alone.
pub proof fn law_respelling_changes_the_marks_behind_the_name(
    src: Seq<char>,
    span: Span,
    pitch: Pitch,
    outer: Pitch,
    name: Seq<char>,
    marks: Seq<char>,
    behind: Seq<char>,
)
    requires
        cut_of(src, span.start as int, span.end as int) == name + marks + behind,
        span.start + name.len() + marks.len() <= usize::MAX,
        forall|k: int| 0 <= k < name.len() ==> 'a' <= #[trigger] name[k] && name[k] <= 'z',
        forall|k: int| 0 <= k < marks.len() ==> #[trigger] marks[k] == '\'' || marks[k] == ',',
        behind.len() > 0 ==> behind[0] != '\'' && behind[0] != ',' && !crate::text::letter(
            behind[0],
        ),
    ensures
        ({
            let found = respelling(src, span, pitch, outer);
            let shift = pitch.octave - relative_octave_of(outer, pitch.note_name, 0);
            &&& behind.contains('=') ==> found is None
            &&& found is Some ==> {
                let (place, written) = found->0;
                &&& place.start == span.start + name.len()
                &&& place.end == span.start + name.len() + marks.len()
                &&& written.len() == if shift >= 0 {
                    shift
                } else {
                    -shift
                }
                &&& forall|k: int|
                    0 <= k < written.len() ==> #[trigger] written[k] == if shift >= 0 {
                        '\''
                    } else {
                        ','
                    }
            }
            &&& found is None ==> behind.contains('=') || raised(marks) == shift
        }),
{
    let text = name + marks + behind;
    assert(text =~= name + (marks + behind));
    lemma_letters(name, marks + behind, 0);
    lemma_marks_run(name, marks, behind, 0);
    assert(text.subrange(name.len() as int, (name.len() + marks.len()) as int) =~= marks);
    if behind.contains('=') {
        let k = choose|k: int| 0 <= k < behind.len() && behind[k] == '=';
        assert(text[name.len() + marks.len() + k] == '=');
    }
    if text.contains('=') {
        let k = choose|k: int| 0 <= k < text.len() && text[k] == '=';
        if k < name.len() {
            assert(text[k] == name[k]);
        } else if k < name.len() + marks.len() {
            assert(text[k] == marks[k - name.len()]);
        } else {
            assert(behind[k - name.len() - marks.len()] == '=');
        }
    }
    crate::code_action::note_state::law_marks_shift_by_what_they_are_for(
        pitch.octave - relative_octave_of(outer, pitch.note_name, 0),
    );
    law_octave_marks_shift_by_one_octave_each(marks);
    assert forall|i: int| 0 <= i < name.len() implies (#[trigger] name[i]) as u32 <= 0x7f by {}
    assert forall|i: int| 0 <= i < marks.len() implies (#[trigger] marks[i]) as u32 <= 0x7f by {
        assert(marks[i] == '\'' || marks[i] == ',');
    }
    lemma_ascii_len(name);
    lemma_ascii_len(marks);
}

} // verus!
