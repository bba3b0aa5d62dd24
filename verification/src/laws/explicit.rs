//! Making music explicit: where the durations and the pitches go.
use vstd::prelude::*;
use vstd::utf8::*;
use crate::code_action::CodeAction;
use crate::code_action::make_explicit::{
    MakeBothExplicit, MakeDurationsExplicit, MakePitchesExplicit, event_insertions, explicit,
    indices_selected, insertions, touched,
};
use crate::code_action::note_state::{letters, marks_run, octave_mark, pitch_spelled, written_note};
use crate::document::Document;
use crate::finding::{kept, last_below, lemma_kept, lemma_last_below};
use crate::line_struct::{has_position, law_offset_at_undoes_position_at, offset_of, position_of};
use crate::notes::{Event, EventKind};
use crate::protocol::{EditView, Range};
use crate::text::{
    can_cut, cut_of, lemma_encode_concat, lemma_piece_bytes, lemma_replaced_inside, letter,
    on_boundary, piece, replaced,
};

verus! {

/// Whether an event is written where a document says: its value and then its post-events, at places
/// that a client can be told of.
pub open spec fn stands(document: Document, event: Event) -> bool {
    &&& event.span.start <= event.value_end <= event.span.end
    &&& on_boundary(document.text@, event.span.start as int)
    &&& on_boundary(document.text@, event.value_end as int)
    &&& on_boundary(document.text@, event.span.end as int)
    &&& has_position(document.bytes(), event.span.start as int)
    &&& has_position(document.bytes(), event.value_end as int)
}

/// The selected events, by their place in the list: those that share a byte with `[start, end)`, or
/// the one that holds the cursor where the two are the same.
pub open spec fn chosen(events: Seq<Event>, start: int, end: int) -> spec_fn(int) -> bool {
    |k: int|
        {
            let span = events[k].span;
            if start == end {
                span.start <= start && start < span.end
            } else {
                exists|b: int|
                    span.start <= b < span.end && start <= b < end && #[trigger] is_byte(b)
            }
        }
}

/// Any byte.
pub open spec fn is_byte(b: int) -> bool {
    true
}

/// Whether every event of a document is some text.
pub open spec fn all_stand(document: Document) -> bool {
    forall|k: int|
        0 <= k < document.events().len() ==> stands(document, #[trigger] document.events()[k])
            && document.events()[k].span.start < document.events()[k].span.end
}

proof fn lemma_chosen(events: Seq<Event>, start: int, end: int, k: int)
    requires
        start <= end,
        events[k].span.start < events[k].span.end,
    ensures
        touched(events, start, end)(k) == chosen(events, start, end)(k),
{
    let span = events[k].span;
    if start < end && span.start < end && span.end > start {
        let b = if span.start <= start {
            start
        } else {
            span.start as int
        };
        assert(is_byte(b));
    }
}

proof fn lemma_kept_alike(n: int, a: spec_fn(int) -> bool, b: spec_fn(int) -> bool)
    requires
        forall|k: int| 0 <= k < n ==> #[trigger] a(k) == b(k),
    ensures
        kept(n, a) == kept(n, b),
    decreases n,
{
    if n > 0 {
        lemma_kept_alike(n - 1, a, b);
        assert(a(n - 1) == b(n - 1));
    }
}

/// The selected events are those that share a byte with the selection, or hold the cursor.
proof fn lemma_selected(document: Document, selection: Range, start: int, end: int)
    requires
        start <= end,
        offset_of(document.bytes(), selection.start) == Some(start),
        offset_of(document.bytes(), selection.end) == Some(end),
        all_stand(document),
    ensures
        indices_selected(document, selection) == kept(
            document.events().len() as int,
            chosen(document.events(), start, end),
        ),
{
    let events = document.events();
    assert forall|k: int| 0 <= k < events.len() implies #[trigger] touched(events, start, end)(k)
        == chosen(events, start, end)(k) by {
        assert(stands(document, events[k]));
        lemma_chosen(events, start, end, k);
    }
    lemma_kept_alike(
        events.len() as int,
        touched(events, start, end),
        chosen(events, start, end),
    );
}

/// An edit that inserts a text at an offset of a document.
pub open spec fn inserts(document: Document, edit: EditView, at: int, text: Seq<char>) -> bool {
    &&& edit.range.start == edit.range.end
    &&& offset_of(document.bytes(), edit.range.start) == Some(at)
    &&& edit.new_text == text
}

/// The selected events whose duration is not written.
pub open spec fn lacking(events: Seq<Event>, start: int, end: int) -> spec_fn(int) -> bool {
    |k: int| chosen(events, start, end)(k) && !events[k].duration_written
}

/// Making durations explicit inserts the duration of each selected event that has none written, and
/// nothing else: one edit for each such event, in source order, right behind its value. Once that
/// edit is made, the event reads as its value, its duration and its post-events.
pub proof fn law_durations_go_behind_the_value(
    document: Document,
    selection: Range,
    start: int,
    end: int,
)
    requires
        start <= end,
        offset_of(document.bytes(), selection.start) == Some(start),
        offset_of(document.bytes(), selection.end) == Some(end),
        document.bytes().len() <= usize::MAX,
        all_stand(document),
    ensures
        ({
            let events = document.events();
            let at = kept(events.len() as int, lacking(events, start, end));
            match MakeDurationsExplicit::outcome(document, selection) {
                Some(found) => {
                    &&& found.command is None
                    &&& found.edits.len() == at.len()
                    &&& forall|j: int|
                        0 <= j < at.len() ==> inserts(
                            document,
                            #[trigger] found.edits[j],
                            events[at[j] as int].value_end as int,
                            events[at[j] as int].duration@,
                        )
                    &&& forall|j: int|
                        0 <= j < at.len() ==> #[trigger] reads_with_duration(
                            document,
                            events[at[j] as int],
                            found.edits[j],
                        )
                },
                None => at.len() == 0,
            }
        }),
{
    let events = document.events();
    assert(events.len() == document.notes.events.len());
    let picked = kept(events.len() as int, chosen(events, start, end));
    lemma_selected(document, selection, start, end);
    lemma_kept(events.len() as int, chosen(events, start, end));
    lemma_kept(events.len() as int, lacking(events, start, end));
    let at = kept(events.len() as int, lacking(events, start, end));
    lemma_duration_edits(document, start, end, events.len() as int);
    let edits = insertions(document, picked, false, true, picked.len() as int);
    assert forall|j: int| 0 <= j < at.len() implies inserts(
        document,
        #[trigger] edits[j],
        events[at[j] as int].value_end as int,
        events[at[j] as int].duration@,
    ) && reads_with_duration(document, events[at[j] as int], edits[j]) by {
        lemma_reads_with_duration(document, events[at[j] as int], edits[j]);
    }
}

/// What the text of an event is once an edit inserted something at the edit's place.
pub open spec fn reads_with_duration(document: Document, event: Event, edit: EditView) -> bool {
    let src = document.text@;
    let at = offset_of(document.bytes(), edit.range.start)->0;
    let after = replaced(src, at, at, edit.new_text);
    let end = event.span.end + encode_utf8(edit.new_text).len();
    cut_of(after, event.span.start as int, end) == cut_of(
        src,
        event.span.start as int,
        event.value_end as int,
    ) + event.duration@ + cut_of(src, event.value_end as int, event.span.end as int)
}

pub proof fn lemma_split_piece(src: Seq<char>, from: int, mid: int, to: int)
    requires
        from <= mid <= to,
        can_cut(src, from, to),
        on_boundary(src, mid),
    ensures
        piece(src, from, to) == piece(src, from, mid) + piece(src, mid, to),
        encode_utf8(piece(src, from, mid)).len() == mid - from,
        encode_utf8(piece(src, mid, to)).len() == to - mid,
{
    lemma_piece_bytes(src, from, to);
    lemma_piece_bytes(src, from, mid);
    lemma_piece_bytes(src, mid, to);
    lemma_encode_concat(piece(src, from, mid), piece(src, mid, to));
    let whole = piece(src, from, mid) + piece(src, mid, to);
    assert(encode_utf8(whole) =~= encode_utf8(piece(src, from, to)));
    crate::text::lemma_bytes_injective(whole, piece(src, from, to));
}

proof fn lemma_reads_with_duration(document: Document, event: Event, edit: EditView)
    requires
        stands(document, event),
        document.bytes().len() <= usize::MAX,
        edit == (EditView {
            range: Range {
                start: position_of(document.bytes(), event.value_end as int),
                end: position_of(document.bytes(), event.value_end as int),
            },
            new_text: event.duration@,
        }),
    ensures
        inserts(document, edit, event.value_end as int, event.duration@),
        reads_with_duration(document, event, edit),
{
    let src = document.text@;
    let none = Seq::<char>::empty();
    law_offset_at_undoes_position_at(src, event.value_end as int);
    let from = event.span.start as int;
    let mid = event.value_end as int;
    let to = event.span.end as int;
    lemma_split_piece(src, from, mid, to);
    let head = piece(src, from, mid);
    let tail = piece(src, mid, to);
    assert(head + none + tail =~= head + tail);
    assert(encode_utf8(none).len() == 0);
    lemma_replaced_inside(src, from, to, head, none, tail, event.duration@);
}

/// The duration edits of the first `n` events: one for each that is selected and lacks a duration.
proof fn lemma_duration_edits(document: Document, start: int, end: int, n: int)
    requires
        0 <= n <= document.events().len(),
        document.events().len() <= usize::MAX,
        all_stand(document),
    ensures
        ({
            let events = document.events();
            let picked = kept(n, chosen(events, start, end));
            let at = kept(n, lacking(events, start, end));
            let edits = insertions(document, picked, false, true, picked.len() as int);
            &&& edits.len() == at.len()
            &&& forall|j: int|
                0 <= j < at.len() ==> (#[trigger] edits[j]) == (EditView {
                    range: Range {
                        start: position_of(
                            document.bytes(),
                            events[at[j] as int].value_end as int,
                        ),
                        end: position_of(document.bytes(), events[at[j] as int].value_end as int),
                    },
                    new_text: events[at[j] as int].duration@,
                })
        }),
    decreases n,
{
    let events = document.events();
    if n > 0 {
        lemma_duration_edits(document, start, end, n - 1);
        let before = kept(n - 1, chosen(events, start, end));
        let picked = kept(n, chosen(events, start, end));
        if chosen(events, start, end)(n - 1) {
            lemma_insertions_prefix(document, before, picked, false, true, before.len() as int);
            assert(stands(document, events[n - 1]));
            encode_utf8_valid_utf8(document.text@);
            crate::text::lemma_boundary_in_range(
                document.bytes(),
                events[n - 1].value_end as int,
            );
        }
    }
}

/// What is inserted for the first of the listed events depends on those alone.
proof fn lemma_insertions_prefix(
    document: Document,
    a: Seq<usize>,
    b: Seq<usize>,
    pitches: bool,
    durations: bool,
    n: int,
)
    requires
        n <= a.len() <= b.len(),
        forall|k: int| 0 <= k < a.len() ==> a[k] == b[k],
    ensures
        insertions(document, a, pitches, durations, n) == insertions(
            document,
            b,
            pitches,
            durations,
            n,
        ),
    decreases n,
{
    if n > 0 {
        lemma_insertions_prefix(document, a, b, pitches, durations, n - 1);
    }
}

/// Whether an event is a note whose name is written.
pub open spec fn names_itself(event: Event) -> bool {
    event.kind matches EventKind::Note { pitch_written, .. } && pitch_written
}

/// Whether an event is a bare duration: a note whose name is not written.
pub open spec fn is_bare(event: Event) -> bool {
    event.kind matches EventKind::Note { pitch_written, .. } && !pitch_written
}

/// Whether the `j`-th event is the note that a bare duration at `k` repeats: the last one before it
/// that is written out.
pub open spec fn repeats(events: Seq<Event>, k: int, j: int) -> bool {
    &&& 0 <= j < k
    &&& names_itself(events[j])
    &&& forall|m: int| j < m < k ==> !names_itself(#[trigger] events[m])
}

/// Whether `text` is the name that `value` starts with, of `h` letters, and behind it, where `marks`
/// asks for them, all of its octave marks.
pub open spec fn is_name(text: Seq<char>, value: Seq<char>, h: int, marks: bool) -> bool {
    &&& 0 <= h <= text.len() <= value.len()
    &&& text == value.subrange(0, text.len() as int)
    &&& forall|i: int|
        0 <= i < h ==> ('a' <= #[trigger] text[i] <= 'z' || 'A' <= text[i] <= 'Z')
    &&& h < value.len() ==> !('a' <= value[h] <= 'z' || 'A' <= value[h] <= 'Z')
    &&& forall|i: int| h <= i < text.len() ==> (#[trigger] text[i] == '\'' || text[i] == ',')
    &&& !marks ==> text.len() == h
    &&& marks && text.len() < value.len() ==> value[text.len() as int] != '\'' && value[text.len() as int]
        != ','
}

/// Whether an edit writes the pitch that a bare duration inherits: in front of it, the name of the
/// note that it repeats, and outside relative music that note's octave marks.
pub open spec fn writes_pitch(document: Document, edit: EditView, k: int, j: int, h: int) -> bool {
    let events = document.events();
    let value = cut_of(
        document.text@,
        events[j].span.start as int,
        events[j].value_end as int,
    );
    &&& repeats(events, k, j)
    &&& inserts(document, edit, events[k].span.start as int, edit.new_text)
    &&& is_name(edit.new_text, value, h, events[k].relative is None)
}

/// Whether an edit writes the pitch that the bare duration at `k` inherits.
pub open spec fn writes_its_pitch(document: Document, edit: EditView, k: int) -> bool {
    exists|j: int, h: int| #[trigger] writes_pitch(document, edit, k, j, h)
}

/// The selected bare durations that have a note to repeat.
pub open spec fn repeating(events: Seq<Event>, start: int, end: int) -> spec_fn(int) -> bool {
    |k: int|
        chosen(events, start, end)(k) && is_bare(events[k]) && exists|j: int|
            #[trigger] repeats(events, k, j)
}

proof fn lemma_spelled(document: Document, k: int)
    requires
        0 <= k < document.events().len() <= usize::MAX,
    ensures
        ({
            let events = document.events();
            let spelled = pitch_spelled(events, k, document.text@);
            &&& spelled is Some <==> is_bare(events[k]) && exists|j: int|
                #[trigger] repeats(events, k, j)
            &&& spelled matches Some(text) ==> exists|j: int, h: int|
                #[trigger] repeats(events, k, j) && #[trigger] is_name(
                    text,
                    cut_of(
                        document.text@,
                        events[j].span.start as int,
                        events[j].value_end as int,
                    ),
                    h,
                    events[k].relative is None,
                )
        }),
{
    let events = document.events();
    lemma_last_below(k, written_note(events));
    let found = last_below(k, written_note(events));
    match found {
        Some(j) => {
            let j = j as int;
            assert(written_note(events)(j));
            assert forall|m: int| j < m < k implies !names_itself(#[trigger] events[m]) by {
                assert(!written_note(events)(m));
            }
            assert(repeats(events, k, j));
            let value = cut_of(
                document.text@,
                events[j].span.start as int,
                events[j].value_end as int,
            );
            let h = letters(value, 0) as int;
            lemma_runs_end(value, 0);
            lemma_runs_end(value, h);
            match pitch_spelled(events, k, document.text@) {
                Some(text) => {
                    assert(is_name(text, value, h, events[k].relative is None));
                },
                None => {},
            }
        },
        None => {
            assert forall|j: int| !(#[trigger] repeats(events, k, j)) by {
                if repeats(events, k, j) {
                    assert(written_note(events)(j));
                }
            }
        },
    }
}

proof fn lemma_runs_end(text: Seq<char>, from: int)
    requires
        0 <= from <= text.len(),
    ensures
        from + letters(text, from) <= text.len(),
        from + marks_run(text, from) <= text.len(),
        forall|i: int| from <= i < from + letters(text, from) ==> letter(#[trigger] text[i]),
        from + letters(text, from) < text.len() ==> !letter(text[from + letters(text, from)]),
        forall|i: int|
            from <= i < from + marks_run(text, from) ==> octave_mark(#[trigger] text[i]),
        from + marks_run(text, from) < text.len() ==> !octave_mark(
            text[from + marks_run(text, from)],
        ),
    decreases text.len() - from,
{
    if from < text.len() {
        lemma_runs_end(text, from + 1);
    }
}

/// Making pitches explicit writes, in front of each selected bare duration that has a note to repeat,
/// the name of that note, and nothing else: one edit for each, in source order.
pub proof fn law_pitches_go_in_front_of_bare_durations(
    document: Document,
    selection: Range,
    start: int,
    end: int,
)
    requires
        start <= end,
        offset_of(document.bytes(), selection.start) == Some(start),
        offset_of(document.bytes(), selection.end) == Some(end),
        document.bytes().len() <= usize::MAX,
        all_stand(document),
    ensures
        ({
            let events = document.events();
            let at = kept(events.len() as int, repeating(events, start, end));
            match MakePitchesExplicit::outcome(document, selection) {
                Some(found) => {
                    &&& found.command is None
                    &&& found.edits.len() == at.len()
                    &&& forall|m: int|
                        0 <= m < at.len() ==> writes_its_pitch(
                            document,
                            #[trigger] found.edits[m],
                            at[m] as int,
                        )
                },
                None => at.len() == 0,
            }
        }),
{
    let events = document.events();
    assert(events.len() == document.notes.events.len());
    lemma_selected(document, selection, start, end);
    lemma_pitch_edits(document, start, end, events.len() as int);
}

proof fn lemma_pitch_edits(document: Document, start: int, end: int, n: int)
    requires
        0 <= n <= document.events().len(),
        document.events().len() <= usize::MAX,
        document.bytes().len() <= usize::MAX,
        all_stand(document),
    ensures
        ({
            let events = document.events();
            let picked = kept(n, chosen(events, start, end));
            let at = kept(n, repeating(events, start, end));
            let edits = insertions(document, picked, true, false, picked.len() as int);
            &&& edits.len() == at.len()
            &&& forall|m: int|
                0 <= m < at.len() ==> writes_its_pitch(
                    document,
                    #[trigger] edits[m],
                    at[m] as int,
                )
        }),
    decreases n,
{
    let events = document.events();
    if n > 0 {
        lemma_pitch_edits(document, start, end, n - 1);
        let before = kept(n - 1, chosen(events, start, end));
        let picked = kept(n, chosen(events, start, end));
        let earlier = kept(n - 1, repeating(events, start, end));
        let at = kept(n, repeating(events, start, end));
        let first = insertions(document, before, true, false, before.len() as int);
        let edits = insertions(document, picked, true, false, picked.len() as int);
        lemma_spelled(document, n - 1);
        if chosen(events, start, end)(n - 1) {
            lemma_insertions_prefix(document, before, picked, true, false, before.len() as int);
            let event = events[n - 1];
            assert(stands(document, event));
            encode_utf8_valid_utf8(document.text@);
            crate::text::lemma_boundary_in_range(document.bytes(), event.span.start as int);
            law_offset_at_undoes_position_at(document.text@, event.span.start as int);
            match pitch_spelled(events, n - 1, document.text@) {
                Some(text) => {
                    let (j, h) = choose|j: int, h: int|
                        #[trigger] repeats(events, n - 1, j) && #[trigger] is_name(
                            text,
                            cut_of(
                                document.text@,
                                events[j].span.start as int,
                                events[j].value_end as int,
                            ),
                            h,
                            event.relative is None,
                        );
                    assert(edits =~= first + event_insertions(document, n - 1, true, false));
                    assert(edits.last() == edits[earlier.len() as int]);
                    assert(writes_pitch(document, edits[earlier.len() as int], n - 1, j, h));
                },
                None => {},
            }
        }
        assert forall|m: int| 0 <= m < at.len() implies writes_its_pitch(
            document,
            #[trigger] edits[m],
            at[m] as int,
        ) by {
            if m < earlier.len() {
                assert(edits[m] == first[m]);
                assert(at[m] == earlier[m]);
            }
        }
    }
}

/// Making both explicit writes what making durations explicit and making pitches explicit write, and
/// nothing else.
pub proof fn law_both_are_the_two_together(document: Document, selection: Range)
    ensures
        ({
            let durations = edits_or_none(MakeDurationsExplicit::outcome(document, selection));
            let pitches = edits_or_none(MakePitchesExplicit::outcome(document, selection));
            let both = edits_or_none(MakeBothExplicit::outcome(document, selection));
            &&& both.len() == durations.len() + pitches.len()
            &&& both.to_multiset() == durations.to_multiset().add(pitches.to_multiset())
        }),
{
    let at = indices_selected(document, selection);
    lemma_both(document, at, at.len() as int);
}

/// The edits of what an action does, if it does anything.
pub open spec fn edits_or_none(outcome: Option<crate::code_action::ResolvedView>) -> Seq<EditView> {
    match outcome {
        Some(found) => found.edits,
        None => Seq::empty(),
    }
}

proof fn lemma_both(document: Document, at: Seq<usize>, n: int)
    ensures
        insertions(document, at, true, true, n).to_multiset() == insertions(
            document,
            at,
            false,
            true,
            n,
        ).to_multiset().add(insertions(document, at, true, false, n).to_multiset()),
        insertions(document, at, true, true, n).len() == insertions(
            document,
            at,
            false,
            true,
            n,
        ).len() + insertions(document, at, true, false, n).len(),
    decreases n,
{
    broadcast use vstd::seq_lib::group_to_multiset_ensures;

    if n > 0 {
        lemma_both(document, at, n - 1);
        let i = at[n - 1] as int;
        let d0 = insertions(document, at, false, true, n - 1);
        let p0 = insertions(document, at, true, false, n - 1);
        let b0 = insertions(document, at, true, true, n - 1);
        let d = event_insertions(document, i, false, true);
        let p = event_insertions(document, i, true, false);
        let b = event_insertions(document, i, true, true);
        assert(b =~= p + d);
        vstd::seq_lib::lemma_multiset_commutative(d0, d);
        vstd::seq_lib::lemma_multiset_commutative(p0, p);
        vstd::seq_lib::lemma_multiset_commutative(b0, b);
        vstd::seq_lib::lemma_multiset_commutative(p, d);
        assert(insertions(document, at, true, true, n).to_multiset() =~= insertions(
            document,
            at,
            false,
            true,
            n,
        ).to_multiset().add(insertions(document, at, true, false, n).to_multiset()));
    } else {
        assert(Seq::<EditView>::empty().to_multiset() =~= Seq::<EditView>::empty().to_multiset().add(
            Seq::<EditView>::empty().to_multiset(),
        ));
    }
}

} // verus!
