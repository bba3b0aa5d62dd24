//! What the refactorings keep: the duration and the octave that each event is heard with.
//!
//! A duration that is not written is the one in force, and in relative music a note lies nearest to
//! the one before it, shifted by its octave marks. These functions read events that way, each with
//! what a refactoring writes on it, and the laws say that what is heard is what the events meant
//! before.
use vstd::prelude::*;
use crate::code_action::inline_repeats::{
    PredView, Repeat, body_splices, ending_of, event_fixes, event_in, following_edits, follows,
    note_edits, pred_after, reads_relative, repeat_endings, run_fixes, seed, segments, surviving,
    volta_in,
};
use crate::code_action::note_state::{
    law_respelling_keeps_the_octave, letters, marks_run, net_shift, note_leading, respelling,
};
use crate::code_action::splice::{SpliceView, latest_first, spliced};
use crate::document::Document;
use crate::finding::{first_from, kept};
use crate::line_struct::{Span, range_between};
use crate::notes::{Event, Pitch, relative_octave_of};
use crate::protocol::EditView;
use crate::text::{cut_of, trimmed};

verus! {

/// What is written on an event: a duration behind its value, and octave marks in place of those that
/// its leading note carries.
pub struct Fixes {
    pub duration: Option<Seq<char>>,
    pub marks: Option<(Span, Seq<char>)>,
}

/// Nothing written on an event.
pub open spec fn untouched() -> Fixes {
    Fixes { duration: None, marks: None }
}

/// The splices that write on an event.
pub open spec fn splices_of(event: Event, fixes: Fixes) -> Seq<SpliceView> {
    let duration = match fixes.duration {
        Some(text) => seq![SpliceView { start: event.value_end, end: event.value_end, text }],
        None => Seq::empty(),
    };
    let marks = match fixes.marks {
        Some((span, text)) => seq![SpliceView { start: span.start, end: span.end, text }],
        None => Seq::empty(),
    };
    duration + marks
}

/// The edits that write on an event.
pub open spec fn edits_of(document: Document, event: Event, fixes: Fixes) -> Seq<EditView> {
    let duration = match fixes.duration {
        Some(text) => seq![
            EditView {
                range: range_between(
                    document.bytes(),
                    Span { start: event.value_end, end: event.value_end },
                ),
                new_text: text,
            },
        ],
        None => Seq::empty(),
    };
    let marks = match fixes.marks {
        Some((span, text)) => seq![
            EditView { range: range_between(document.bytes(), span), new_text: text },
        ],
        None => Seq::empty(),
    };
    duration + marks
}

/// The octave marks that the note at `span` carries; none where an octave check pins its octave.
pub open spec fn marks_on(src: Seq<char>, span: Span) -> Option<Seq<char>> {
    let text = cut_of(src, span.start as int, span.end as int);
    let head = letters(text, 0) as int;
    if text.contains('=') {
        None
    } else {
        Some(text.subrange(head, head + marks_run(text, head)))
    }
}

/// The octave that a note is heard in behind `outer`: the nearest one, shifted by the marks written
/// on it or else by those it carries. A check pins the octave to the note's own, and without a note
/// before it the marks count from the octave of an absolute note.
pub open spec fn octave_heard(
    src: Seq<char>,
    span: Span,
    pitch: Pitch,
    marks: Option<(Span, Seq<char>)>,
    outer: Option<Pitch>,
) -> int {
    let carried = match marks {
        Some((_, text)) => Some(text),
        None => marks_on(src, span),
    };
    match (carried, outer) {
        (None, _) => pitch.octave as int,
        (Some(text), Some(outer)) => relative_octave_of(outer, pitch.note_name, net_shift(text)),
        (Some(text), None) => net_shift(text) - 1,
    }
}

/// What is in force behind an event as it is heard: its duration, and in relative music the pitch of
/// its leading note.
pub open spec fn heard(
    src: Seq<char>,
    event: Event,
    fixes: Fixes,
    relative: bool,
    state: PredView,
) -> PredView {
    PredView {
        pitch: match (relative, note_leading(event)) {
            (true, Some((span, pitch))) => Some(
                Pitch {
                    octave: octave_heard(src, span, pitch, fixes.marks, state.pitch) as i32,
                    ..pitch
                },
            ),
            _ => state.pitch,
        },
        duration: if event.duration_written {
            event.duration@
        } else {
            match fixes.duration {
                Some(text) => text,
                None => state.duration,
            }
        },
    }
}

/// What is in force behind a run of events as they are heard, one after the other.
pub open spec fn heard_along(
    src: Seq<char>,
    events: Seq<Event>,
    at: Seq<usize>,
    fixes: Seq<Fixes>,
    relative: bool,
    state: PredView,
) -> PredView
    decreases at.len(),
{
    if at.len() == 0 {
        state
    } else {
        heard(
            src,
            events[at.last() as int],
            fixes.last(),
            relative,
            heard_along(src, events, at.drop_last(), fixes.drop_last(), relative, state),
        )
    }
}

/// What is in force behind a run of events as they are meant: the duration of the last one, and in
/// relative music the pitch of the last leading note.
pub open spec fn meant_along(
    events: Seq<Event>,
    at: Seq<usize>,
    relative: bool,
    state: PredView,
) -> PredView
    decreases at.len(),
{
    if at.len() == 0 {
        state
    } else {
        pred_after(
            events[at.last() as int],
            relative,
            meant_along(events, at.drop_last(), relative, state),
        )
    }
}

/// Whether each event of a run, with what is written on it, is heard as it is meant.
pub open spec fn heard_as_meant(
    src: Seq<char>,
    events: Seq<Event>,
    at: Seq<usize>,
    fixes: Seq<Fixes>,
    relative: bool,
    state: PredView,
) -> bool {
    forall|n: int|
        0 <= n <= at.len() ==> heard_along(
            src,
            events,
            #[trigger] at.subrange(0, n),
            fixes.subrange(0, n),
            relative,
            state,
        ) == meant_along(events, at.subrange(0, n), relative, state)
}

/// What an event needs written on it behind `state`: its duration, where it was inherited and would
/// now be another, and its octave marks, in relative music.
pub open spec fn fixes_behind(src: Seq<char>, event: Event, relative: bool, state: PredView) -> Fixes {
    Fixes {
        duration: if !event.duration_written && event.duration@ != state.duration {
            Some(event.duration@)
        } else {
            None
        },
        marks: match (relative, note_leading(event), state.pitch) {
            (true, Some((span, pitch)), Some(outer)) => respelling(src, span, pitch, outer),
            _ => None,
        },
    }
}

/// An event with what it needs written on it is heard as it is meant, whatever is in force before it;
/// and the splices and edits that keep an event's value write exactly that.
pub proof fn law_a_fixed_event_is_heard_as_meant(
    document: Document,
    event: Event,
    relative: bool,
    state: PredView,
)
    requires
        relative ==> state.pitch is Some,
    ensures
        ({
            let src = document.text@;
            let fixes = fixes_behind(src, event, relative, state);
            &&& heard(src, event, fixes, relative, state) == pred_after(event, relative, state)
            &&& event_fixes(src, event, relative, state) == splices_of(event, fixes)
            &&& note_edits(document, event, state, relative) == edits_of(document, event, fixes)
        }),
{
    lemma_fixed(document.text@, event, relative, state);
    let fixes = fixes_behind(document.text@, event, relative, state);
    assert(note_edits(document, event, state, relative) =~= edits_of(document, event, fixes));
}

proof fn lemma_fixed(src: Seq<char>, event: Event, relative: bool, state: PredView)
    requires
        relative ==> state.pitch is Some,
    ensures
        heard(src, event, fixes_behind(src, event, relative, state), relative, state) == pred_after(
            event,
            relative,
            state,
        ),
        event_fixes(src, event, relative, state) == splices_of(
            event,
            fixes_behind(src, event, relative, state),
        ),
{
    let fixes = fixes_behind(src, event, relative, state);
    assert(event_fixes(src, event, relative, state) =~= splices_of(event, fixes));
    match (relative, note_leading(event), state.pitch) {
        (true, Some((span, pitch)), Some(outer)) => {
            law_respelling_keeps_the_octave(src, span, pitch, outer);
            assert(octave_heard(src, span, pitch, fixes.marks, state.pitch) == pitch.octave);
        },
        _ => {},
    }
}

/// What each event of a run needs written on it, behind those before it.
pub open spec fn fixes_along(
    src: Seq<char>,
    events: Seq<Event>,
    at: Seq<usize>,
    relative: bool,
    state: PredView,
) -> Seq<Fixes>
    decreases at.len(),
{
    if at.len() == 0 {
        Seq::empty()
    } else {
        let front = at.drop_last();
        fixes_along(src, events, front, relative, state).push(
            fixes_behind(
                src,
                events[at.last() as int],
                relative,
                meant_along(events, front, relative, state),
            ),
        )
    }
}

/// The splices that write on each event of a run.
pub open spec fn splices_along(events: Seq<Event>, at: Seq<usize>, fixes: Seq<Fixes>) -> Seq<SpliceView>
    decreases at.len(),
{
    if at.len() == 0 {
        Seq::empty()
    } else {
        splices_along(events, at.drop_last(), fixes.drop_last()) + splices_of(
            events[at.last() as int],
            fixes.last(),
        )
    }
}

proof fn lemma_meant_pitch(events: Seq<Event>, at: Seq<usize>, relative: bool, state: PredView)
    requires
        relative ==> state.pitch is Some,
    ensures
        relative ==> meant_along(events, at, relative, state).pitch is Some,
    decreases at.len(),
{
    if at.len() > 0 {
        lemma_meant_pitch(events, at.drop_last(), relative, state);
    }
}

/// A run of events that is laid down anew is heard as it is meant, event by event; the splices that it
/// is laid down with are those that write on its events, and it leaves in force what it means.
pub proof fn law_a_run_is_heard_as_meant(
    src: Seq<char>,
    events: Seq<Event>,
    at: Seq<usize>,
    relative: bool,
    state: PredView,
)
    requires
        relative ==> state.pitch is Some,
    ensures
        ({
            let fixes = fixes_along(src, events, at, relative, state);
            &&& fixes.len() == at.len()
            &&& heard_as_meant(src, events, at, fixes, relative, state)
            &&& run_fixes(src, events, at, relative, state) == (
                splices_along(events, at, fixes),
                meant_along(events, at, relative, state),
            )
        }),
    decreases at.len(),
{
    let fixes = fixes_along(src, events, at, relative, state);
    if at.len() > 0 {
        let front = at.drop_last();
        let earlier = fixes_along(src, events, front, relative, state);
        law_a_run_is_heard_as_meant(src, events, front, relative, state);
        lemma_meant_pitch(events, front, relative, state);
        let event = events[at.last() as int];
        lemma_fixed(src, event, relative, meant_along(events, front, relative, state));
        assert(fixes.drop_last() =~= earlier);
        assert forall|n: int| 0 <= n <= at.len() implies heard_along(
            src,
            events,
            #[trigger] at.subrange(0, n),
            fixes.subrange(0, n),
            relative,
            state,
        ) == meant_along(events, at.subrange(0, n), relative, state) by {
            if n < at.len() {
                assert(at.subrange(0, n) =~= front.subrange(0, n));
                assert(fixes.subrange(0, n) =~= earlier.subrange(0, n));
            } else {
                assert(at.subrange(0, n) =~= at);
                assert(fixes.subrange(0, n) =~= fixes);
                assert(front.subrange(0, n - 1) =~= front);
                assert(earlier.subrange(0, n - 1) =~= earlier);
            }
        }
    } else {
        assert forall|n: int| 0 <= n <= at.len() implies heard_along(
            src,
            events,
            #[trigger] at.subrange(0, n),
            fixes.subrange(0, n),
            relative,
            state,
        ) == meant_along(events, at.subrange(0, n), relative, state) by {
            assert(at.subrange(0, n) =~= at);
        }
    }
}

/// What is meant behind two runs, and what they need written on them, is that of the one and then of
/// the other.
proof fn lemma_runs_in_turn(
    src: Seq<char>,
    events: Seq<Event>,
    a: Seq<usize>,
    b: Seq<usize>,
    relative: bool,
    state: PredView,
)
    ensures
        ({
            let between = meant_along(events, a, relative, state);
            &&& meant_along(events, a + b, relative, state) == meant_along(
                events,
                b,
                relative,
                between,
            )
            &&& fixes_along(src, events, a + b, relative, state) == fixes_along(
                src,
                events,
                a,
                relative,
                state,
            ) + fixes_along(src, events, b, relative, between)
        }),
    decreases b.len(),
{
    let between = meant_along(events, a, relative, state);
    let first = fixes_along(src, events, a, relative, state);
    if b.len() == 0 {
        assert(a + b =~= a);
        assert(first + fixes_along(src, events, b, relative, between) =~= first);
    } else {
        lemma_runs_in_turn(src, events, a, b.drop_last(), relative, state);
        assert((a + b).drop_last() =~= a + b.drop_last());
        assert((a + b).last() == b.last());
        let front = fixes_along(src, events, b.drop_last(), relative, between);
        assert(fixes_along(src, events, a + b, relative, state) =~= first + fixes_along(
            src,
            events,
            b,
            relative,
            between,
        ));
    }
}

/// The events that the first `r` times of a repeat lay down, in order: those of the body that play
/// that time, and then those of the ending that the time has.
pub open spec fn laid_down(document: Document, repeat: Repeat, r: int) -> Seq<usize>
    decreases r,
{
    if r <= 0 {
        Seq::empty()
    } else {
        let events = document.events();
        let calls = document.calls();
        let body = repeat.repeated;
        let at = kept(events.len() as int, event_in(events, body));
        let voltas = kept(calls.len() as int, volta_in(calls, body.start as int, body.end as int));
        let before = laid_down(document, repeat, r - 1) + surviving(
            events,
            at,
            calls,
            voltas,
            r as u32,
        );
        let endings = repeat_endings(document, repeat);
        match ending_of(r as u32, repeat.count, endings) {
            Some(k) => before + kept(
                events.len() as int,
                event_in(events, endings[k as int].span),
            ),
            None => before,
        }
    }
}

/// What is in force behind the segments of an unfolded repeat is what the events laid down mean.
proof fn lemma_segments_leave(document: Document, repeat: Repeat, state: PredView, r: int)
    requires
        ({
            let events = document.events();
            let at = kept(events.len() as int, event_in(events, repeat.repeated));
            reads_relative(events, at) ==> state.pitch is Some
        }),
    ensures
        ({
            let events = document.events();
            let at = kept(events.len() as int, event_in(events, repeat.repeated));
            segments(document, repeat, state, r).1 == meant_along(
                events,
                laid_down(document, repeat, r),
                reads_relative(events, at),
                state,
            )
        }),
    decreases r,
{
    if r > 0 {
        let src = document.text@;
        let events = document.events();
        let calls = document.calls();
        let body = repeat.repeated;
        let at = kept(events.len() as int, event_in(events, body));
        let voltas = kept(calls.len() as int, volta_in(calls, body.start as int, body.end as int));
        let relative = reads_relative(events, at);
        lemma_segments_leave(document, repeat, state, r - 1);
        let earlier = laid_down(document, repeat, r - 1);
        let left = surviving(events, at, calls, voltas, r as u32);
        let before = meant_along(events, earlier, relative, state);
        lemma_meant_pitch(events, earlier, relative, state);
        law_a_run_is_heard_as_meant(src, events, left, relative, before);
        lemma_runs_in_turn(src, events, earlier, left, relative, state);
        let after = meant_along(events, left, relative, before);
        lemma_meant_pitch(events, left, relative, before);
        let endings = repeat_endings(document, repeat);
        match ending_of(r as u32, repeat.count, endings) {
            Some(k) => {
                let inside = kept(
                    events.len() as int,
                    event_in(events, endings[k as int].span),
                );
                law_a_run_is_heard_as_meant(src, events, inside, relative, after);
                lemma_runs_in_turn(src, events, earlier + left, inside, relative, state);
            },
            None => {},
        }
    }
}

/// The text of a stretch of the source with splices applied, and the white space at its ends dropped.
pub open spec fn written(src: Seq<char>, span: Span, splices: Seq<SpliceView>) -> Seq<char> {
    trimmed(
        spliced(
            cut_of(src, span.start as int, span.end as int),
            span.start as int,
            latest_first(splices),
        ),
    )
}

/// Each time of a repeat writes what the events it lays down need: the text of the body, with the
/// voltas taken care of, and then that of the ending, each with the splices that write on its events
/// behind everything laid down before.
pub proof fn law_each_time_writes_what_its_events_need(
    document: Document,
    repeat: Repeat,
    state: PredView,
    r: int,
)
    requires
        0 < r,
        ({
            let events = document.events();
            let at = kept(events.len() as int, event_in(events, repeat.repeated));
            reads_relative(events, at) ==> state.pitch is Some
        }),
    ensures
        ({
            let src = document.text@;
            let events = document.events();
            let calls = document.calls();
            let body = repeat.repeated;
            let at = kept(events.len() as int, event_in(events, body));
            let voltas = kept(
                calls.len() as int,
                volta_in(calls, body.start as int, body.end as int),
            );
            let relative = reads_relative(events, at);
            let earlier = laid_down(document, repeat, r - 1);
            let left = surviving(events, at, calls, voltas, r as u32);
            let needs = fixes_along(
                src,
                events,
                left,
                relative,
                meant_along(events, earlier, relative, state),
            );
            let so_far = fixes_along(src, events, earlier, relative, state) + needs;
            let copies = segments(document, repeat, state, r - 1).0.push(
                written(
                    src,
                    body,
                    body_splices(src, body, calls, voltas, r as u32, voltas.len() as int)
                        + splices_along(events, left, needs),
                ),
            );
            let endings = repeat_endings(document, repeat);
            let all = fixes_along(
                src,
                events,
                laid_down(document, repeat, r),
                relative,
                state,
            );
            match ending_of(r as u32, repeat.count, endings) {
                Some(k) => {
                    let span = endings[k as int].span;
                    let inside = kept(events.len() as int, event_in(events, span));
                    let more = fixes_along(
                        src,
                        events,
                        inside,
                        relative,
                        meant_along(events, earlier + left, relative, state),
                    );
                    &&& segments(document, repeat, state, r).0 == copies.push(
                        written(src, span, splices_along(events, inside, more)),
                    )
                    &&& all == so_far + more
                },
                None => {
                    &&& segments(document, repeat, state, r).0 == copies
                    &&& all == so_far
                },
            }
        }),
{
    let src = document.text@;
    let events = document.events();
    let calls = document.calls();
    let body = repeat.repeated;
    let at = kept(events.len() as int, event_in(events, body));
    let voltas = kept(calls.len() as int, volta_in(calls, body.start as int, body.end as int));
    let relative = reads_relative(events, at);
    let earlier = laid_down(document, repeat, r - 1);
    let left = surviving(events, at, calls, voltas, r as u32);
    let before = meant_along(events, earlier, relative, state);
    lemma_segments_leave(document, repeat, state, r - 1);
    lemma_meant_pitch(events, earlier, relative, state);
    law_a_run_is_heard_as_meant(src, events, left, relative, before);
    lemma_runs_in_turn(src, events, earlier, left, relative, state);
    let after = meant_along(events, left, relative, before);
    lemma_meant_pitch(events, left, relative, before);
    let endings = repeat_endings(document, repeat);
    match ending_of(r as u32, repeat.count, endings) {
        Some(k) => {
            let span = endings[k as int].span;
            let inside = kept(events.len() as int, event_in(events, span));
            law_a_run_is_heard_as_meant(src, events, inside, relative, after);
            lemma_runs_in_turn(src, events, earlier + left, inside, relative, state);
            let splices = splices_along(
                events,
                inside,
                fixes_along(src, events, inside, relative, after),
            );
            assert(Seq::<SpliceView>::empty() + splices =~= splices);
        },
        None => {},
    }
}

/// The events that an unfolded repeat lays down.
pub open spec fn unfolded_events(document: Document, repeat: Repeat) -> Seq<usize> {
    laid_down(document, repeat, repeat.count as int)
}

/// Unfolding keeps what is heard: every event of every copy and ending, in the order they are laid
/// down, is heard with the duration and, in relative music, the octave that it had; and so is the note
/// that follows the repeat. What is in force behind one piece of the output is what the next one is
/// written behind, from what was in force before the repeat on.
pub proof fn law_unfolded_music_is_heard_as_meant(document: Document, repeat: Repeat)
    ensures
        ({
            let src = document.text@;
            let events = document.events();
            let at = kept(events.len() as int, event_in(events, repeat.repeated));
            let relative = reads_relative(events, at);
            let start = seed(events, at);
            let laid = unfolded_events(document, repeat);
            let left = segments(document, repeat, start, repeat.count as int).1;
            &&& heard_as_meant(
                src,
                events,
                laid,
                fixes_along(src, events, laid, relative, start),
                relative,
                start,
            )
            &&& left == meant_along(events, laid, relative, start)
            &&& match repeat.block {
                Some(block) => match first_from(
                    0,
                    events.len() as int,
                    follows(events, repeat.end as int, block.end as int),
                ) {
                    Some(k) => {
                        let note = events[k as int];
                        let fixes = fixes_behind(src, note, relative, left);
                        &&& heard(src, note, fixes, relative, left) == pred_after(
                            note,
                            relative,
                            left,
                        )
                        &&& following_edits(document, repeat, left, relative) == edits_of(
                            document,
                            note,
                            fixes,
                        )
                    },
                    None => true,
                },
                None => true,
            }
        }),
{
    let src = document.text@;
    let events = document.events();
    let at = kept(events.len() as int, event_in(events, repeat.repeated));
    let relative = reads_relative(events, at);
    let start = seed(events, at);
    let laid = unfolded_events(document, repeat);
    law_a_run_is_heard_as_meant(src, events, laid, relative, start);
    lemma_segments_leave(document, repeat, start, repeat.count as int);
    lemma_meant_pitch(events, laid, relative, start);
    let left = segments(document, repeat, start, repeat.count as int).1;
    match repeat.block {
        Some(block) => match first_from(
            0,
            events.len() as int,
            follows(events, repeat.end as int, block.end as int),
        ) {
            Some(k) => {
                law_a_fixed_event_is_heard_as_meant(document, events[k as int], relative, left);
            },
            None => {},
        },
        None => {},
    }
}

} // verus!
