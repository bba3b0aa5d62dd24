//! The "make explicit" refactorings: spell out the note state the source leaves to inheritance, so
//! that a passage reads the same in isolation as in place.
use vstd::prelude::*;
use crate::code_action::note_state::{explicit_pitch, pitch_spelled};
use crate::code_action::{ActionKind, CodeAction, Offer, Resolved, ResolvedView, offers, resolves};
use crate::document::Document;
use crate::finding::{kept, lemma_kept};
use crate::line_struct::{Span, offset_of, range_between};
use crate::notes::{Event, EventKind};
use crate::protocol::{EditView, Range, TextEdit, edit_views};

verus! {

/// Whether an event inherited its duration rather than writing one.
pub fn omits_duration(event: &Event) -> (r: bool)
    ensures
        r == !event.duration_written,
{
    !event.duration_written
}

/// Whether an event is a note whose pitch was inherited (a bare duration).
pub open spec fn inherits_pitch(event: Event) -> bool {
    match event.kind {
        EventKind::Note { pitch_written, .. } => !pitch_written,
        _ => false,
    }
}

pub fn omits_pitch(event: &Event) -> (r: bool)
    ensures
        r == inherits_pitch(*event),
{
    match &event.kind {
        EventKind::Note { pitch_written, .. } => !*pitch_written,
        _ => false,
    }
}

/// Which events `[start, end)` touches: the one a bare cursor sits in, or those a range overlaps.
pub open spec fn touched(events: Seq<Event>, start: int, end: int) -> spec_fn(int) -> bool {
    |k: int|
        if start == end {
            events[k].span.has(start)
        } else {
            events[k].span.start < end && events[k].span.end > start
        }
}

/// The events a selection touches, by their place in the list.
pub open spec fn indices_selected(document: Document, selection: Range) -> Seq<usize> {
    match (
        offset_of(document.bytes(), selection.start),
        offset_of(document.bytes(), selection.end),
    ) {
        (Some(start), Some(end)) => kept(
            document.events().len() as int,
            touched(document.events(), start, end),
        ),
        _ => Seq::empty(),
    }
}

/// The indices, into the document's events, of those the selection touches.
pub fn selected_indices(document: &Document, selection: Range) -> (r: Vec<usize>)
    requires
        document.wf(),
    ensures
        r@ == indices_selected(*document, selection),
        forall|k: int| 0 <= k < r@.len() ==> (#[trigger] r@[k]) < document.events().len(),
{
    let mut out: Vec<usize> = Vec::new();
    let start = match document.line_index.offset_at(selection.start) {
        Some(offset) => offset,
        None => {
            return out;
        },
    };
    let end = match document.line_index.offset_at(selection.end) {
        Some(offset) => offset,
        None => {
            return out;
        },
    };
    let events = &document.notes.events;
    let ghost fits = touched(events@, start as int, end as int);
    let mut k: usize = 0;
    while k < events.len()
        invariant
            k <= events@.len(),
            fits == touched(events@, start as int, end as int),
            out@ == kept(k as int, fits),
        decreases events.len() - k,
    {
        let event = &events[k];
        if if start == end {
            event.span.contains(start)
        } else {
            event.span.start < end && event.span.end > start
        } {
            out.push(k);
        }
        k = k + 1;
    }
    proof {
        lemma_kept(k as int, fits);
    }
    out
}

/// An insertion at an offset.
pub open spec fn insertion(document: Document, at: usize, text: Seq<char>) -> EditView {
    EditView {
        range: range_between(document.bytes(), Span { start: at, end: at }),
        new_text: text,
    }
}

/// The insertions that make an event explicit: its pitch before it and its duration behind its
/// value, as far as each is asked for and left out.
pub open spec fn event_insertions(
    document: Document,
    i: int,
    pitches: bool,
    durations: bool,
) -> Seq<EditView> {
    let event = document.events()[i];
    let pitch = match (pitches, pitch_spelled(document.events(), i, document.text@)) {
        (true, Some(text)) => seq![insertion(document, event.span.start, text)],
        _ => Seq::empty(),
    };
    let duration = if durations && !event.duration_written {
        seq![insertion(document, event.value_end, event.duration@)]
    } else {
        Seq::empty()
    };
    pitch + duration
}

/// The insertions that make the first `n` of the listed events explicit.
pub open spec fn insertions(
    document: Document,
    at: Seq<usize>,
    pitches: bool,
    durations: bool,
    n: int,
) -> Seq<EditView>
    decreases n,
{
    if n <= 0 {
        Seq::empty()
    } else {
        insertions(document, at, pitches, durations, n - 1) + event_insertions(
            document,
            at[n - 1] as int,
            pitches,
            durations,
        )
    }
}

/// Whether an event would gain a pitch or a duration, as far as each is asked for. A bare duration
/// that inherits from nothing gains no pitch.
pub open spec fn gains_something(document: Document, i: int, pitches: bool, durations: bool) -> bool {
    (durations && !document.events()[i].duration_written) || (pitches && pitch_spelled(
        document.events(),
        i,
        document.text@,
    ) is Some)
}

/// Whether one of the listed events would gain something.
pub open spec fn gains(document: Document, at: Seq<usize>, pitches: bool, durations: bool) -> bool {
    exists|k: int|
        0 <= k < at.len() && gains_something(
            document,
            #[trigger] at[k] as int,
            pitches,
            durations,
        )
}

/// Offers the action titled `title` when at least one selected event would gain a pitch or a
/// duration.
pub fn offer_if(
    document: &Document,
    selection: Range,
    pitches: bool,
    durations: bool,
    title: &str,
) -> (r: Option<Offer>)
    requires
        document.wf(),
    ensures
        offers(
            r,
            gains(*document, indices_selected(*document, selection), pitches, durations),
            title@,
            ActionKind::RefactorRewrite,
        ),
{
    let events = &document.notes.events;
    let src = document.text.as_str();
    let at = selected_indices(document, selection);
    let mut k: usize = 0;
    while k < at.len()
        invariant
            k <= at@.len(),
            events@ == document.events(),
            src@ == document.text@,
            at@ == indices_selected(*document, selection),
            forall|k: int| 0 <= k < at@.len() ==> (#[trigger] at@[k]) < events@.len(),
            forall|j: int|
                0 <= j < k ==> !gains_something(
                    *document,
                    #[trigger] at@[j] as int,
                    pitches,
                    durations,
                ),
        decreases at.len() - k,
    {
        let i = at[k];
        let event = &events[i];
        if (durations && omits_duration(event)) || (pitches && omits_pitch(event) && explicit_pitch(
            events,
            i,
            src,
        ).is_some()) {
            assert(gains_something(*document, at@[k as int] as int, pitches, durations));
            return Some(Offer { title: title.to_string(), kind: ActionKind::RefactorRewrite });
        }
        k = k + 1;
    }
    None
}

/// What making a selection explicit does; none where it has nothing to add.
pub open spec fn explicit(document: Document, selection: Range, pitches: bool, durations: bool) -> Option<
    ResolvedView,
> {
    let at = indices_selected(document, selection);
    let edits = insertions(document, at, pitches, durations, at.len() as int);
    if edits.len() > 0 {
        Some(ResolvedView { edits, command: None })
    } else {
        None
    }
}

/// Builds the insertions that make the selected events explicit, `None` if the selection has
/// nothing to add.
pub fn resolve_edits(document: &Document, selection: Range, pitches: bool, durations: bool) -> (r:
    Option<Resolved>)
    requires
        document.wf(),
    ensures
        resolves(r, explicit(*document, selection, pitches, durations)),
{
    let events = &document.notes.events;
    let src = document.text.as_str();
    let at = selected_indices(document, selection);
    let mut edits: Vec<TextEdit> = Vec::new();
    let mut k: usize = 0;
    assert(edit_views(edits@) =~= Seq::empty());
    // In source order, so that the insertions come out sorted.
    while k < at.len()
        invariant
            document.wf(),
            k <= at@.len(),
            events@ == document.events(),
            src@ == document.text@,
            forall|k: int| 0 <= k < at@.len() ==> (#[trigger] at@[k]) < events@.len(),
            edit_views(edits@) == insertions(*document, at@, pitches, durations, k as int),
        decreases at.len() - k,
    {
        let i = at[k];
        let event = &events[i];
        let ghost before = edit_views(edits@);
        if pitches {
            match explicit_pitch(events, i, src) {
                Some(text) => {
                    let edit = TextEdit {
                        range: document.line_index.range_of(
                            Span::new(event.span.start, event.span.start),
                        ),
                        new_text: text,
                    };
                    edits.push(edit);
                    assert(edit_views(edits@) =~= before + seq![edit@]);
                },
                None => {},
            }
        }
        let ghost mid = edit_views(edits@);
        if durations && omits_duration(event) {
            let edit = TextEdit {
                range: document.line_index.range_of(Span::new(event.value_end, event.value_end)),
                new_text: event.duration.to_text(),
            };
            edits.push(edit);
            assert(edit_views(edits@) =~= mid + seq![edit@]);
        }
        assert(edit_views(edits@) =~= before + event_insertions(
            *document,
            i as int,
            pitches,
            durations,
        ));
        k = k + 1;
    }
    if edits.len() > 0 {
        Some(Resolved { edits, command: None })
    } else {
        None
    }
}

/// Write the inherited duration on every selected event that omits one.
pub struct MakeDurationsExplicit;

/// Write the inherited pitch on every bare duration in the selection.
pub struct MakePitchesExplicit;

/// Write both the inherited pitch and duration throughout the selection.
pub struct MakeBothExplicit;

impl CodeAction for MakeDurationsExplicit {
    open spec fn title() -> Seq<char> {
        "Make durations explicit"@
    }

    open spec fn kind() -> ActionKind {
        ActionKind::RefactorRewrite
    }

    open spec fn applies(document: Document, selection: Range) -> bool {
        gains(document, indices_selected(document, selection), false, true)
    }

    open spec fn outcome(document: Document, selection: Range) -> Option<ResolvedView> {
        explicit(document, selection, false, true)
    }

    fn offer(document: &Document, selection: Range) -> (r: Option<Offer>) {
        offer_if(document, selection, false, true, "Make durations explicit")
    }

    fn resolve(document: &Document, selection: Range) -> (r: Option<Resolved>) {
        resolve_edits(document, selection, false, true)
    }
}

impl CodeAction for MakePitchesExplicit {
    open spec fn title() -> Seq<char> {
        "Make pitches explicit"@
    }

    open spec fn kind() -> ActionKind {
        ActionKind::RefactorRewrite
    }

    open spec fn applies(document: Document, selection: Range) -> bool {
        gains(document, indices_selected(document, selection), true, false)
    }

    open spec fn outcome(document: Document, selection: Range) -> Option<ResolvedView> {
        explicit(document, selection, true, false)
    }

    fn offer(document: &Document, selection: Range) -> (r: Option<Offer>) {
        offer_if(document, selection, true, false, "Make pitches explicit")
    }

    fn resolve(document: &Document, selection: Range) -> (r: Option<Resolved>) {
        resolve_edits(document, selection, true, false)
    }
}

impl CodeAction for MakeBothExplicit {
    open spec fn title() -> Seq<char> {
        "Make pitches and durations explicit"@
    }

    open spec fn kind() -> ActionKind {
        ActionKind::RefactorRewrite
    }

    open spec fn applies(document: Document, selection: Range) -> bool {
        gains(document, indices_selected(document, selection), true, true)
    }

    open spec fn outcome(document: Document, selection: Range) -> Option<ResolvedView> {
        explicit(document, selection, true, true)
    }

    fn offer(document: &Document, selection: Range) -> (r: Option<Offer>) {
        offer_if(document, selection, true, true, "Make pitches and durations explicit")
    }

    fn resolve(document: &Document, selection: Range) -> (r: Option<Resolved>) {
        resolve_edits(document, selection, true, true)
    }
}

/// Making music explicit does something exactly where it is offered.
pub proof fn law_what_is_offered_is_written(
    document: Document,
    selection: Range,
    pitches: bool,
    durations: bool,
)
    ensures
        gains(document, indices_selected(document, selection), pitches, durations) <==> explicit(
            document,
            selection,
            pitches,
            durations,
        ) is Some,
{
    let at = indices_selected(document, selection);
    lemma_insertions_gain(document, at, pitches, durations, at.len() as int);
}

proof fn lemma_insertions_gain(
    document: Document,
    at: Seq<usize>,
    pitches: bool,
    durations: bool,
    n: int,
)
    requires
        0 <= n <= at.len(),
    ensures
        insertions(document, at, pitches, durations, n).len() > 0 <==> exists|k: int|
            0 <= k < n && gains_something(document, #[trigger] at[k] as int, pitches, durations),
    decreases n,
{
    if n > 0 {
        lemma_insertions_gain(document, at, pitches, durations, n - 1);
        let i = at[n - 1] as int;
        assert(event_insertions(document, i, pitches, durations).len() > 0 <==> gains_something(
            document,
            i,
            pitches,
            durations,
        ));
        if gains_something(document, i, pitches, durations) {
            assert(0 <= n - 1 < n && gains_something(
                document,
                at[n - 1] as int,
                pitches,
                durations,
            ));
        }
    }
}

} // verus!
