//! What moving music into a variable and out of it keeps: the duration and the octave that each event
//! is heard with.
use vstd::prelude::*;
use crate::code_action::extract_to_variable::{
    ExtractToVariable, Extractable, ends_before, extractable, extracted_content, next_note_edits,
    reference_of, selected_events, starts_after,
};
use crate::code_action::heard::{
    Fixes, edits_of, fixes_behind, heard, heard_along, heard_as_meant,
    law_a_fixed_event_is_heard_as_meant, meant_along, splices_along, splices_of, untouched,
};
use crate::code_action::inline_repeats::{PredView, note_edits, pred_after};
use crate::code_action::inline_variable::{
    DefinitionView, InlineAll, Surroundings, around_relative, definition_selected, first_leading,
    first_note_splices, inlined, inlined_at, kept_meaning, last_pitch, outer_pitch, overlapping,
    references_to, spliced_in, surroundings_of,
};
use crate::code_action::note_state::{law_respelling_keeps_the_octave, note_leading, respelling};
use crate::code_action::splice::{SpliceView, latest_first, spliced};
use crate::code_action::CodeAction;
use crate::document::Document;
use crate::finding::{first_from, kept, last_below};
use crate::line_struct::{Span, range_between};
use crate::notes::{Event, Pitch, default_duration};
use crate::protocol::{EditView, Range};
use crate::text::cut_of;

verus! {

/// Nothing written on any of `n` events.
pub open spec fn none_touched(n: nat) -> Seq<Fixes> {
    Seq::new(n, |k: int| untouched())
}

/// Whether each event of a run is heard as it is meant where it is written.
pub open spec fn reads_as_written(
    src: Seq<char>,
    events: Seq<Event>,
    at: Seq<usize>,
    relative: bool,
    state: PredView,
) -> bool {
    heard_as_meant(src, events, at, none_touched(at.len()), relative, state)
}

/// Whether the `k`-th of a run of events is the first one with a note that carries its octave.
pub open spec fn leads(events: Seq<Event>, at: Seq<usize>, k: int) -> bool {
    &&& note_leading(events[at[k] as int]) is Some
    &&& forall|j: int| 0 <= j < k ==> note_leading(events[(#[trigger] at[j]) as int]) is None
}

/// What a run of events needs written on it to follow `state` instead of what it followed: the
/// duration of its first event, and the octave marks of its first leading note.
pub open spec fn first_fixes(
    src: Seq<char>,
    events: Seq<Event>,
    at: Seq<usize>,
    relative: bool,
    state: PredView,
) -> Seq<Fixes> {
    Seq::new(
        at.len(),
        |k: int|
            {
                let needed = fixes_behind(src, events[at[k] as int], relative, state);
                Fixes {
                    duration: if k == 0 {
                        needed.duration
                    } else {
                        None
                    },
                    marks: if leads(events, at, k) {
                        needed.marks
                    } else {
                        None
                    },
                }
            },
    )
}

/// What is meant behind a run depends on what was in force before it only as far as it sounds
/// nothing itself.
proof fn lemma_meant_from(
    events: Seq<Event>,
    at: Seq<usize>,
    relative: bool,
    a: PredView,
    b: PredView,
)
    ensures
        ({
            let x = meant_along(events, at, relative, a);
            let y = meant_along(events, at, relative, b);
            &&& at.len() > 0 ==> x.duration == y.duration && x.duration
                == events[at.last() as int].duration@
            &&& at.len() == 0 ==> x == a && y == b
            &&& (exists|j: int|
                0 <= j < at.len() && note_leading(events[(#[trigger] at[j]) as int]) is Some)
                && relative ==> x.pitch == y.pitch
            &&& (forall|j: int|
                0 <= j < at.len() ==> note_leading(events[(#[trigger] at[j]) as int]) is None)
                ==> x.pitch == a.pitch && y.pitch == b.pitch
        }),
    decreases at.len(),
{
    if at.len() > 0 {
        let front = at.drop_last();
        lemma_meant_from(events, front, relative, a, b);
        assert(at[at.len() - 1] == at.last());
        if exists|j: int|
            0 <= j < at.len() && note_leading(events[(#[trigger] at[j]) as int]) is Some {
            let j = choose|j: int|
                0 <= j < at.len() && note_leading(events[(#[trigger] at[j]) as int]) is Some;
            if j < front.len() {
                assert(front[j] == at[j]);
            }
        }
        if forall|j: int|
            0 <= j < at.len() ==> note_leading(events[(#[trigger] at[j]) as int]) is None {
            assert forall|j: int| 0 <= j < front.len() implies note_leading(
                events[(#[trigger] front[j]) as int],
            ) is None by {
                assert(front[j] == at[j]);
            }
            assert(note_leading(events[at[at.len() - 1] as int]) is None);
        }
    }
}

proof fn lemma_heard_step(
    src: Seq<char>,
    events: Seq<Event>,
    at: Seq<usize>,
    fixes: Seq<Fixes>,
    relative: bool,
    state: PredView,
    n: int,
)
    requires
        0 < n <= at.len(),
        fixes.len() == at.len(),
    ensures
        heard_along(src, events, at.subrange(0, n), fixes.subrange(0, n), relative, state) == heard(
            src,
            events[at[n - 1] as int],
            fixes[n - 1],
            relative,
            heard_along(
                src,
                events,
                at.subrange(0, n - 1),
                fixes.subrange(0, n - 1),
                relative,
                state,
            ),
        ),
        meant_along(events, at.subrange(0, n), relative, state) == pred_after(
            events[at[n - 1] as int],
            relative,
            meant_along(events, at.subrange(0, n - 1), relative, state),
        ),
{
    assert(at.subrange(0, n).drop_last() =~= at.subrange(0, n - 1));
    assert(fixes.subrange(0, n).drop_last() =~= fixes.subrange(0, n - 1));
}

/// Music that is heard as it is meant where it is written is heard so anywhere else, once the duration
/// of its first event and the octave marks of its first leading note are written to follow what is in
/// force there.
pub proof fn law_moved_music_is_heard_as_meant(
    src: Seq<char>,
    events: Seq<Event>,
    at: Seq<usize>,
    relative: bool,
    from: PredView,
    to: PredView,
)
    requires
        reads_as_written(src, events, at, relative, from),
        relative ==> to.pitch is Some,
    ensures
        heard_as_meant(
            src,
            events,
            at,
            first_fixes(src, events, at, relative, to),
            relative,
            to,
        ),
{
    let fixes = first_fixes(src, events, at, relative, to);
    assert forall|n: int| 0 <= n <= at.len() implies heard_along(
        src,
        events,
        #[trigger] at.subrange(0, n),
        fixes.subrange(0, n),
        relative,
        to,
    ) == meant_along(events, at.subrange(0, n), relative, to) by {
        lemma_moved(src, events, at, relative, from, to, n);
    }
}

proof fn lemma_moved(
    src: Seq<char>,
    events: Seq<Event>,
    at: Seq<usize>,
    relative: bool,
    from: PredView,
    to: PredView,
    n: int,
)
    requires
        reads_as_written(src, events, at, relative, from),
        relative ==> to.pitch is Some,
        0 <= n <= at.len(),
    ensures
        ({
            let fixes = first_fixes(src, events, at, relative, to);
            heard_along(src, events, at.subrange(0, n), fixes.subrange(0, n), relative, to)
                == meant_along(events, at.subrange(0, n), relative, to)
        }),
    decreases n,
{
    let fixes = first_fixes(src, events, at, relative, to);
    let none = none_touched(at.len());
    if n > 0 {
        lemma_moved(src, events, at, relative, from, to, n - 1);
        lemma_heard_step(src, events, at, fixes, relative, to, n);
        lemma_heard_step(src, events, at, none, relative, from, n);
        let front = at.subrange(0, n - 1);
        let event = events[at[n - 1] as int];
        let here = meant_along(events, front, relative, to);
        let there = meant_along(events, front, relative, from);
        // How the event is heard where it is written.
        assert(heard_along(src, events, front, none.subrange(0, n - 1), relative, from) == there);
        assert(heard_along(src, events, at.subrange(0, n), none.subrange(0, n), relative, from)
            == meant_along(events, at.subrange(0, n), relative, from));
        assert(heard(src, event, untouched(), relative, there) == pred_after(
            event,
            relative,
            there,
        ));
        lemma_meant_from(events, front, relative, from, to);
        let needed = fixes_behind(src, event, relative, to);
        match note_leading(event) {
            Some((span, pitch)) => {
                if leads(events, at, n - 1) {
                    assert forall|j: int| 0 <= j < front.len() implies note_leading(
                        events[(#[trigger] front[j]) as int],
                    ) is None by {
                        assert(front[j] == at[j]);
                    }
                    if relative {
                        law_respelling_keeps_the_octave(src, span, pitch, to.pitch->0);
                    }
                } else {
                    let j = choose|j: int|
                        0 <= j < n - 1 && note_leading(events[(#[trigger] at[j]) as int]) is Some;
                    assert(front[j] == at[j]);
                    assert(relative ==> here.pitch == there.pitch);
                }
            },
            None => {},
        }
        assert(heard(src, event, fixes[n - 1], relative, here) == pred_after(
            event,
            relative,
            here,
        ));
    } else {
        assert(at.subrange(0, 0) =~= Seq::empty());
    }
}

/// What is in force at a reference: the duration of the music before it, and the pitch that a note
/// there resolves against.
pub open spec fn in_force_at(events: Seq<Event>, around: Surroundings) -> PredView {
    PredView {
        pitch: outer_pitch(events, around),
        duration: match around.before {
            Some(k) => events[k as int].duration@,
            None => default_duration(),
        },
    }
}

/// What is in force behind a definition that was spliced in.
pub open spec fn in_force_behind(events: Seq<Event>, at: Seq<usize>) -> PredView {
    PredView { pitch: last_pitch(events, at), duration: events[at.last() as int].duration@ }
}

/// The splices of a run whose events have nothing written on them are none.
proof fn lemma_no_splices(events: Seq<Event>, at: Seq<usize>, fixes: Seq<Fixes>)
    requires
        fixes.len() == at.len(),
        forall|k: int| 0 <= k < fixes.len() ==> (#[trigger] fixes[k]) == untouched(),
    ensures
        splices_along(events, at, fixes) == Seq::<SpliceView>::empty(),
    decreases at.len(),
{
    if at.len() > 0 {
        assert(fixes[fixes.len() - 1] == fixes.last());
        lemma_no_splices(events, at.drop_last(), fixes.drop_last());
        assert(splices_of(events[at.last() as int], untouched()) =~= Seq::empty());
        assert(splices_along(events, at, fixes) =~= Seq::empty());
    }
}

proof fn lemma_splices_first(events: Seq<Event>, at: Seq<usize>, fixes: Seq<Fixes>)
    requires
        at.len() > 0,
        fixes.len() == at.len(),
    ensures
        splices_along(events, at, fixes) == splices_of(events[at[0] as int], fixes[0])
            + splices_along(events, at.drop_first(), fixes.drop_first()),
    decreases at.len(),
{
    if at.len() > 1 {
        lemma_splices_first(events, at.drop_last(), fixes.drop_last());
        assert(at.drop_last().drop_first() =~= at.drop_first().drop_last());
        assert(fixes.drop_last().drop_first() =~= fixes.drop_first().drop_last());
        assert(at.drop_first().last() == at.last());
        assert(fixes.drop_first().last() == fixes.last());
        assert(splices_along(events, at, fixes) =~= splices_of(events[at[0] as int], fixes[0])
            + splices_along(events, at.drop_first(), fixes.drop_first()));
    } else {
        assert(at.last() == at[0] && fixes.last() == fixes[0]);
        assert(splices_along(events, at.drop_last(), fixes.drop_last()) =~= Seq::empty());
        assert(splices_along(events, at.drop_first(), fixes.drop_first()) =~= Seq::empty());
        assert(splices_along(events, at, fixes) =~= splices_of(events[at[0] as int], fixes[0])
            + splices_along(events, at.drop_first(), fixes.drop_first()));
    }
}

/// The octave marks that a run of events needs, from its first leading note on.
spec fn marks_only(
    src: Seq<char>,
    events: Seq<Event>,
    at: Seq<usize>,
    relative: bool,
    state: PredView,
) -> Seq<Fixes> {
    Seq::new(
        at.len(),
        |k: int|
            Fixes {
                duration: None,
                marks: if leads(events, at, k) {
                    fixes_behind(src, events[at[k] as int], relative, state).marks
                } else {
                    None
                },
            },
    )
}

proof fn lemma_marks_of_the_first(
    src: Seq<char>,
    events: Seq<Event>,
    at: Seq<usize>,
    relative: bool,
    state: PredView,
)
    ensures
        splices_along(events, at, marks_only(src, events, at, relative, state)) == match (
            relative,
            state.pitch,
            first_leading(events, at),
        ) {
            (true, Some(outer), Some((span, pitch))) => match respelling(src, span, pitch, outer) {
                Some((marks, text)) => seq![
                    SpliceView { start: marks.start, end: marks.end, text },
                ],
                None => Seq::empty(),
            },
            _ => Seq::empty(),
        },
    decreases at.len(),
{
    let fixes = marks_only(src, events, at, relative, state);
    if at.len() > 0 {
        let rest = at.drop_first();
        lemma_splices_first(events, at, fixes);
        match note_leading(events[at[0] as int]) {
            Some(_) => {
                assert(leads(events, at, 0));
                assert forall|k: int| 0 <= k < fixes.drop_first().len() implies (
                #[trigger] fixes.drop_first()[k]) == untouched() by {
                    assert(fixes.drop_first()[k] == fixes[k + 1]);
                    assert(note_leading(events[at[0] as int]) is Some);
                    assert(!leads(events, at, k + 1));
                }
                lemma_no_splices(events, rest, fixes.drop_first());
                assert(splices_along(events, at, fixes) =~= splices_of(
                    events[at[0] as int],
                    fixes[0],
                ));
            },
            None => {
                assert(!leads(events, at, 0));
                lemma_marks_of_the_first(src, events, rest, relative, state);
                let later = marks_only(src, events, rest, relative, state);
                assert forall|k: int| 0 <= k < rest.len() implies (
                #[trigger] fixes.drop_first()[k]) == later[k] by {
                    assert(fixes.drop_first()[k] == fixes[k + 1]);
                    lemma_leads_later(events, at, k);
                }
                assert(fixes.drop_first() =~= later);
                assert(splices_of(events[at[0] as int], fixes[0]) =~= Seq::empty());
                assert(splices_along(events, at, fixes) =~= splices_along(events, rest, later));
            },
        }
    }
}

proof fn lemma_leads_later(events: Seq<Event>, at: Seq<usize>, k: int)
    requires
        at.len() > 0,
        0 <= k < at.len() - 1,
        note_leading(events[at[0] as int]) is None,
    ensures
        leads(events, at, k + 1) == leads(events, at.drop_first(), k),
{
    let rest = at.drop_first();
    assert(rest[k] == at[k + 1]);
    if leads(events, at, k + 1) {
        assert forall|j: int| 0 <= j < k implies note_leading(
            events[(#[trigger] rest[j]) as int],
        ) is None by {
            assert(rest[j] == at[j + 1]);
        }
    }
    if leads(events, rest, k) {
        assert forall|j: int| 0 <= j < k + 1 implies note_leading(
            events[(#[trigger] at[j]) as int],
        ) is None by {
            if j > 0 {
                assert(at[j] == rest[j - 1]);
            }
        }
    }
}

/// The splices that make a definition's first note explicit write what its events need at the
/// reference.
proof fn lemma_first_splices(
    src: Seq<char>,
    events: Seq<Event>,
    at: Seq<usize>,
    around: Surroundings,
    strip: bool,
)
    ensures
        first_note_splices(src, events, at, around, strip) == splices_along(
            events,
            at,
            first_fixes(src, events, at, strip, in_force_at(events, around)),
        ),
{
    let state = in_force_at(events, around);
    let fixes = first_fixes(src, events, at, strip, state);
    let marks = marks_only(src, events, at, strip, state);
    lemma_marks_of_the_first(src, events, at, strip, state);
    if at.len() > 0 {
        lemma_splices_first(events, at, fixes);
        lemma_splices_first(events, at, marks);
        assert(fixes.drop_first() =~= marks.drop_first());
        let rest = splices_along(events, at.drop_first(), marks.drop_first());
        let event = events[at[0] as int];
        let duration = splices_of(event, Fixes { duration: fixes[0].duration, marks: None });
        assert(splices_of(event, fixes[0]) =~= duration + splices_of(event, marks[0]));
        assert(splices_along(events, at, fixes) =~= duration + splices_along(events, at, marks));
        assert(first_note_splices(src, events, at, around, strip) =~= duration + splices_along(
            events,
            at,
            marks,
        ));
    } else {
        assert(first_note_splices(src, events, at, around, strip) =~= Seq::empty());
    }
}

/// Inlining keeps what is heard. Where the events of a definition are heard as they are meant in the
/// definition, they are heard so at a reference that it is spliced in at, with the splices that the
/// inlining makes: each has the duration it had, and where the notes join the relative music there,
/// the octave. So has the note behind the reference, with the edits that the inlining makes to it.
pub proof fn law_inlined_music_is_heard_as_meant(
    document: Document,
    def: DefinitionView,
    reference: Span,
    within: PredView,
)
    requires
        reference.start <= reference.end,
        ({
            let events = document.events();
            let around = surroundings_of(document, reference);
            let (span, strip) = spliced_in(def, around.in_block, around_relative(events, around));
            let at = kept(events.len() as int, overlapping(events, span));
            &&& reads_as_written(document.text@, events, at, strip, within)
            &&& strip ==> outer_pitch(events, around) is Some
        }),
    ensures
        ({
            let src = document.text@;
            let events = document.events();
            let around = surroundings_of(document, reference);
            let (span, strip) = spliced_in(def, around.in_block, around_relative(events, around));
            let at = kept(events.len() as int, overlapping(events, span));
            let state = in_force_at(events, around);
            let fixes = first_fixes(src, events, at, strip, state);
            let edits = inlined(document, def, reference)->0;
            &&& heard_as_meant(src, events, at, fixes, strip, state)
            &&& inlined(document, def, reference) is Some
            &&& edits[0].new_text == spliced(
                cut_of(src, span.start as int, span.end as int),
                span.start as int,
                latest_first(splices_along(events, at, fixes)),
            )
            &&& match around.after {
                Some(k) => {
                    let note = events[k as int];
                    let behind = in_force_behind(events, at);
                    let needed = fixes_behind(src, note, strip, behind);
                    at.len() > 0 && (strip ==> last_pitch(events, at) is Some) ==> {
                        &&& heard(src, note, needed, strip, behind) == pred_after(
                            note,
                            strip,
                            behind,
                        )
                        &&& edits.subrange(1, edits.len() as int) == edits_of(
                            document,
                            note,
                            needed,
                        )
                    }
                },
                None => edits.len() == 1,
            }
        }),
{
    let src = document.text@;
    let events = document.events();
    let around = surroundings_of(document, reference);
    let (span, strip) = spliced_in(def, around.in_block, around_relative(events, around));
    let at = kept(events.len() as int, overlapping(events, span));
    let state = in_force_at(events, around);
    law_moved_music_is_heard_as_meant(src, events, at, strip, within, state);
    lemma_first_splices(src, events, at, around, strip);
    let edits = inlined(document, def, reference)->0;
    assert(edits.subrange(1, edits.len() as int) =~= kept_meaning(
        document,
        at,
        around.after,
        strip,
    ));
    match around.after {
        Some(k) => {
            let note = events[k as int];
            let behind = in_force_behind(events, at);
            if at.len() > 0 && (strip ==> last_pitch(events, at) is Some) {
                law_a_fixed_event_is_heard_as_meant(document, note, strip, behind);
                assert(kept_meaning(document, at, around.after, strip) =~= note_edits(
                    document,
                    note,
                    behind,
                    strip,
                ));
            }
        },
        None => {},
    }
}

/// What extraction writes on the events it takes: the duration of the first one, where it is not
/// written.
pub open spec fn extraction_fixes(events: Seq<Event>, at: Seq<usize>) -> Seq<Fixes> {
    Seq::new(
        at.len(),
        |k: int|
            Fixes {
                duration: if k == 0 && !events[at[k] as int].duration_written {
                    Some(events[at[k] as int].duration@)
                } else {
                    None
                },
                marks: None,
            },
    )
}

/// Whether the note behind a selection resolved its octave against the selection's last pitch, in the
/// relative music that the selection sits in.
pub open spec fn chained(events: Seq<Event>, at: Seq<usize>, next: Event) -> bool {
    at.len() > 0 && events[at[0] as int].relative is Some && reference_of(next) == last_pitch(
        events,
        at,
    )
}

/// What the note behind a selection follows once the selection is a reference: the music before it.
pub open spec fn in_force_before(events: Seq<Event>, at: Seq<usize>, start: int) -> PredView {
    PredView {
        pitch: if at.len() > 0 {
            reference_of(events[at[0] as int])
        } else {
            None
        },
        duration: match last_below(events.len() as int, ends_before(events, start)) {
            Some(j) => events[j as int].duration@,
            None => default_duration(),
        },
    }
}

/// Extraction keeps what is heard. Where the selected events are heard as they are meant behind what
/// is in force before them, they are heard so in the definition, behind any duration and the reference
/// that the definition's own `\relative` names, with the splices that the extraction makes. So is the
/// note behind the selection, with the edits that the extraction makes to it, behind what the selection
/// followed.
pub proof fn law_extracted_music_is_heard_as_meant(
    document: Document,
    found: Extractable,
    within: PredView,
    there: PredView,
)
    requires
        ({
            let events = document.events();
            let at = selected_events(document, found);
            &&& at.len() > 0
            &&& reads_as_written(
                document.text@,
                events,
                at,
                events[at[0] as int].relative is Some,
                within,
            )
            &&& within.pitch == reference_of(events[at[0] as int])
            &&& there.pitch == within.pitch
        }),
    ensures
        ({
            let src = document.text@;
            let events = document.events();
            let at = selected_events(document, found);
            let relative = events[at[0] as int].relative is Some;
            let fixes = extraction_fixes(events, at);
            let before = in_force_before(events, at, found.start as int);
            &&& heard_as_meant(src, events, at, fixes, relative, there)
            &&& extracted_content(document, found) == spliced(
                cut_of(src, found.start as int, found.end as int),
                found.start as int,
                splices_along(events, at, fixes),
            )
            &&& match first_from(
                0,
                events.len() as int,
                starts_after(events, found.end as int),
            ) {
                Some(k) => {
                    let next = events[k as int];
                    let follows = chained(events, at, next);
                    let needed = fixes_behind(src, next, follows, before);
                    &&& heard(src, next, needed, follows, before) == pred_after(
                        next,
                        follows,
                        before,
                    )
                    &&& next_note_edits(
                        document,
                        at,
                        found.start as int,
                        found.end as int,
                    ) == edits_of(document, next, needed)
                },
                None => true,
            }
        }),
{
    let src = document.text@;
    let events = document.events();
    let at = selected_events(document, found);
    let relative = events[at[0] as int].relative is Some;
    let fixes = extraction_fixes(events, at);
    let before = in_force_before(events, at, found.start as int);
    assert forall|n: int| 0 <= n <= at.len() implies heard_along(
        src,
        events,
        #[trigger] at.subrange(0, n),
        fixes.subrange(0, n),
        relative,
        there,
    ) == meant_along(events, at.subrange(0, n), relative, there) by {
        lemma_extracted(src, events, at, relative, within, there, n);
    }
    lemma_extraction_splices(events, at);
    let raw = cut_of(src, found.start as int, found.end as int);
    let base = found.start as int;
    let first = events[at[0] as int];
    if first.duration_written {
        assert(splices_along(events, at, fixes) =~= Seq::empty());
    } else {
        let splice = SpliceView {
            start: first.value_end,
            end: first.value_end,
            text: first.duration@,
        };
        let splices = splices_along(events, at, fixes);
        assert(splices =~= seq![splice]);
        assert(splices.drop_last() =~= Seq::empty());
        assert(spliced(raw, base, splices.drop_last()) == raw);
    }
    match first_from(0, events.len() as int, starts_after(events, found.end as int)) {
        Some(k) => {
            let next = events[k as int];
            let follows = chained(events, at, next);
            law_a_fixed_event_is_heard_as_meant(document, next, follows, before);
            assert(next_note_edits(document, at, found.start as int, found.end as int) =~= note_edits(
                document,
                next,
                before,
                follows,
            ));
        },
        None => {},
    }
}

proof fn lemma_extraction_splices(events: Seq<Event>, at: Seq<usize>)
    requires
        at.len() > 0,
    ensures
        splices_along(events, at, extraction_fixes(events, at)) == splices_of(
            events[at[0] as int],
            extraction_fixes(events, at)[0],
        ),
{
    let fixes = extraction_fixes(events, at);
    lemma_splices_first(events, at, fixes);
    assert forall|k: int| 0 <= k < fixes.drop_first().len() implies (
    #[trigger] fixes.drop_first()[k]) == untouched() by {
        assert(fixes.drop_first()[k] == fixes[k + 1]);
    }
    lemma_no_splices(events, at.drop_first(), fixes.drop_first());
    assert(splices_along(events, at, fixes) =~= splices_of(events[at[0] as int], fixes[0]));
}

proof fn lemma_extracted(
    src: Seq<char>,
    events: Seq<Event>,
    at: Seq<usize>,
    relative: bool,
    within: PredView,
    there: PredView,
    n: int,
)
    requires
        reads_as_written(src, events, at, relative, within),
        there.pitch == within.pitch,
        0 <= n <= at.len(),
    ensures
        ({
            let fixes = extraction_fixes(events, at);
            heard_along(src, events, at.subrange(0, n), fixes.subrange(0, n), relative, there)
                == meant_along(events, at.subrange(0, n), relative, there)
        }),
    decreases n,
{
    let fixes = extraction_fixes(events, at);
    let none = none_touched(at.len());
    if n > 0 {
        lemma_extracted(src, events, at, relative, within, there, n - 1);
        lemma_heard_step(src, events, at, fixes, relative, there, n);
        lemma_heard_step(src, events, at, none, relative, within, n);
        let front = at.subrange(0, n - 1);
        let event = events[at[n - 1] as int];
        let here = meant_along(events, front, relative, there);
        let before = meant_along(events, front, relative, within);
        assert(heard_along(src, events, front, none.subrange(0, n - 1), relative, within)
            == before);
        assert(heard_along(src, events, at.subrange(0, n), none.subrange(0, n), relative, within)
            == meant_along(events, at.subrange(0, n), relative, within));
        lemma_meant_from(events, front, relative, within, there);
        lemma_same_pitch(events, front, relative, within, there);
        assert(heard(src, event, untouched(), relative, before) == pred_after(
            event,
            relative,
            before,
        ));
        assert(heard(src, event, fixes[n - 1], relative, here) == pred_after(
            event,
            relative,
            here,
        ));
    } else {
        assert(at.subrange(0, 0) =~= Seq::empty());
    }
}

proof fn lemma_same_pitch(
    events: Seq<Event>,
    at: Seq<usize>,
    relative: bool,
    a: PredView,
    b: PredView,
)
    requires
        a.pitch == b.pitch,
    ensures
        meant_along(events, at, relative, a).pitch == meant_along(events, at, relative, b).pitch,
    decreases at.len(),
{
    if at.len() > 0 {
        lemma_same_pitch(events, at.drop_last(), relative, a, b);
    }
}

/// The pitch of the note that carries an event's octave.
pub open spec fn leading_pitch(event: Event) -> Option<Pitch> {
    match note_leading(event) {
        Some((_, pitch)) => Some(pitch),
        None => None,
    }
}

/// Whether two events mean the same: they last as long, and carry the same octave.
pub open spec fn same_sound(a: Event, b: Event) -> bool {
    a.duration@ == b.duration@ && leading_pitch(a) == leading_pitch(b)
}

/// Whether two runs of events mean the same, one by one.
pub open spec fn same_music(
    a: Seq<Event>,
    at: Seq<usize>,
    b: Seq<Event>,
    and: Seq<usize>,
) -> bool {
    &&& at.len() == and.len()
    &&& forall|k: int|
        0 <= k < at.len() ==> same_sound(a[(#[trigger] at[k]) as int], b[and[k] as int])
}

proof fn lemma_same_music(
    a: Seq<Event>,
    at: Seq<usize>,
    b: Seq<Event>,
    and: Seq<usize>,
    relative: bool,
    state: PredView,
)
    requires
        same_music(a, at, b, and),
    ensures
        meant_along(a, at, relative, state) == meant_along(b, and, relative, state),
    decreases at.len(),
{
    if at.len() > 0 {
        assert(at[at.len() - 1] == at.last());
        assert(same_sound(a[at[at.len() - 1] as int], b[and[at.len() - 1] as int]));
        assert forall|k: int| 0 <= k < at.drop_last().len() implies same_sound(
            a[(#[trigger] at.drop_last()[k]) as int],
            b[and.drop_last()[k] as int],
        ) by {
            assert(at.drop_last()[k] == at[k]);
        }
        lemma_same_music(a, at.drop_last(), b, and.drop_last(), relative, state);
    }
}

/// Extracting a selection and inlining what it became keeps what is heard. `before` is the document
/// that music was selected in, and `after` one that reads as the extraction leaves it: the events of
/// the definition there mean what the selected ones meant, and the note behind the reference what the
/// note behind the selection meant. With what the inlining writes on them, behind what is in force at
/// the reference, the events of the definition are then heard, one by one, as the selected ones were
/// meant; and the note behind them as the one behind the selection was.
pub proof fn law_extracted_and_inlined_music_is_heard_as_meant(
    before: Document,
    selected: Range,
    after: Document,
    def: DefinitionView,
    reference: Span,
    within: PredView,
)
    requires
        ExtractToVariable::applies(before, selected),
        reference.start <= reference.end,
        ({
            let events = after.events();
            let around = surroundings_of(after, reference);
            let (span, strip) = spliced_in(def, around.in_block, around_relative(events, around));
            let at = kept(events.len() as int, overlapping(events, span));
            let taken = selected_events(before, extractable(before, selected)->0);
            &&& same_music(before.events(), taken, events, at)
            &&& reads_as_written(after.text@, events, at, strip, within)
            &&& strip ==> outer_pitch(events, around) is Some
        }),
    ensures
        ({
            let found = extractable(before, selected)->0;
            let taken = selected_events(before, found);
            let src = after.text@;
            let events = after.events();
            let around = surroundings_of(after, reference);
            let (span, strip) = spliced_in(def, around.in_block, around_relative(events, around));
            let at = kept(events.len() as int, overlapping(events, span));
            let state = in_force_at(events, around);
            let fixes = first_fixes(src, events, at, strip, state);
            let behind = in_force_behind(events, at);
            &&& forall|n: int|
                0 <= n <= taken.len() ==> heard_along(
                    src,
                    events,
                    at.subrange(0, n),
                    fixes.subrange(0, n),
                    strip,
                    state,
                ) == meant_along(before.events(), #[trigger] taken.subrange(0, n), strip, state)
            &&& inlined(after, def, reference) is Some
            &&& inlined(after, def, reference)->0[0] == (EditView {
                range: range_between(after.bytes(), reference),
                new_text: spliced(
                    cut_of(src, span.start as int, span.end as int),
                    span.start as int,
                    latest_first(splices_along(events, at, fixes)),
                ),
            })
            &&& match (
                around.after,
                first_from(
                    0,
                    before.events().len() as int,
                    starts_after(before.events(), found.end as int),
                ),
            ) {
                (Some(k), Some(j)) => {
                    let note = events[k as int];
                    let next = before.events()[j as int];
                    let needed = fixes_behind(src, note, strip, behind);
                    same_sound(next, note) && at.len() > 0 && (strip ==> last_pitch(events, at) is Some)
                        ==> {
                        &&& heard(src, note, needed, strip, behind) == pred_after(
                            next,
                            strip,
                            behind,
                        )
                        &&& inlined(after, def, reference)->0.subrange(
                            1,
                            inlined(after, def, reference)->0.len() as int,
                        ) == edits_of(after, note, needed)
                    }
                },
                _ => true,
            }
        }),
{
    let taken = selected_events(before, extractable(before, selected)->0);
    let src = after.text@;
    let events = after.events();
    let around = surroundings_of(after, reference);
    let (span, strip) = spliced_in(def, around.in_block, around_relative(events, around));
    let at = kept(events.len() as int, overlapping(events, span));
    let state = in_force_at(events, around);
    let fixes = first_fixes(src, events, at, strip, state);
    law_inlined_music_is_heard_as_meant(after, def, reference, within);
    assert forall|n: int| 0 <= n <= taken.len() implies heard_along(
        src,
        events,
        at.subrange(0, n),
        fixes.subrange(0, n),
        strip,
        state,
    ) == meant_along(before.events(), #[trigger] taken.subrange(0, n), strip, state) by {
        let some = taken.subrange(0, n);
        let and = at.subrange(0, n);
        assert forall|k: int| 0 <= k < some.len() implies same_sound(
            before.events()[(#[trigger] some[k]) as int],
            events[and[k] as int],
        ) by {
            assert(some[k] == taken[k]);
        }
        lemma_same_music(before.events(), some, events, and, strip, state);
        assert(heard_along(src, events, and, fixes.subrange(0, n), strip, state) == meant_along(
            events,
            and,
            strip,
            state,
        ));
    }
}

/// The one reference to the definition that a selection names.
pub open spec fn named_reference(document: Document, named: Range) -> Span {
    let def = definition_selected(document, named)->0;
    document.references@[references_to(document, def.name)[0] as int].span
}

/// Inlining everywhere what a selection became keeps what is heard: where the definition has the one
/// reference that the extraction left, the action replaces that reference, edits the note behind it
/// and removes the definition, and nothing else; and what then stands at the reference is heard, event
/// by event, as the selected music was meant.
pub proof fn law_extracted_music_inlined_everywhere_is_heard_as_meant(
    before: Document,
    selected: Range,
    after: Document,
    named: Range,
    within: PredView,
)
    requires
        ExtractToVariable::applies(before, selected),
        InlineAll::applies(after, named),
        references_to(after, definition_selected(after, named)->0.name).len() == 1,
        named_reference(after, named).start <= named_reference(after, named).end,
        ({
            let def = definition_selected(after, named)->0;
            let events = after.events();
            let around = surroundings_of(after, named_reference(after, named));
            let (span, strip) = spliced_in(def, around.in_block, around_relative(events, around));
            let at = kept(events.len() as int, overlapping(events, span));
            let taken = selected_events(before, extractable(before, selected)->0);
            &&& same_music(before.events(), taken, events, at)
            &&& reads_as_written(after.text@, events, at, strip, within)
            &&& strip ==> outer_pitch(events, around) is Some
        }),
    ensures
        ({
            let def = definition_selected(after, named)->0;
            let reference = named_reference(after, named);
            let taken = selected_events(before, extractable(before, selected)->0);
            let src = after.text@;
            let events = after.events();
            let around = surroundings_of(after, reference);
            let (span, strip) = spliced_in(def, around.in_block, around_relative(events, around));
            let at = kept(events.len() as int, overlapping(events, span));
            let state = in_force_at(events, around);
            let fixes = first_fixes(src, events, at, strip, state);
            &&& InlineAll::outcome(after, named) is Some
            &&& InlineAll::outcome(after, named)->0.edits == seq![
                EditView {
                    range: range_between(after.bytes(), reference),
                    new_text: spliced(
                        cut_of(src, span.start as int, span.end as int),
                        span.start as int,
                        latest_first(splices_along(events, at, fixes)),
                    ),
                },
            ] + kept_meaning(after, at, around.after, strip) + seq![
                EditView {
                    range: range_between(after.bytes(), def.delete),
                    new_text: Seq::empty(),
                },
            ]
            &&& forall|n: int|
                0 <= n <= taken.len() ==> heard_along(
                    src,
                    events,
                    at.subrange(0, n),
                    fixes.subrange(0, n),
                    strip,
                    state,
                ) == meant_along(before.events(), #[trigger] taken.subrange(0, n), strip, state)
        }),
{
    let def = definition_selected(after, named)->0;
    let reference = named_reference(after, named);
    let references = references_to(after, def.name);
    law_extracted_and_inlined_music_is_heard_as_meant(
        before,
        selected,
        after,
        def,
        reference,
        within,
    );
    let edits = inlined(after, def, reference)->0;
    reveal_with_fuel(inlined_at, 2);
    assert(inlined_at(after, def, references, 1) == Some(edits)) by {
        assert(Seq::<EditView>::empty() + edits =~= edits);
    }
    let removal = EditView {
        range: range_between(after.bytes(), def.delete),
        new_text: Seq::empty(),
    };
    assert(edits.push(removal) =~= edits + seq![removal]);
}

} // verus!
