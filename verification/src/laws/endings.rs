//! Repeats with endings: which ending each time has, where they stand, and what a volta plays.
use vstd::prelude::*;
use vstd::utf8::*;
use crate::code_action::inline_repeats::{
    EndingView, PredView, Repeat, alternative_after, alternative_in, blanks, body_splices,
    ending_of, event_dropped, event_fixes, following_edits, follows, holds_call, in_dropped, listed,
    outermost, place_among, plain_endings, played, plays, repeat_of, seed, surviving, tagged,
    tagged_endings, trimmed_inside, volta_in, volta_splices,
};
use crate::code_action::splice::{SpliceView, latest_first, put_in_order, spliced};
use crate::command::{CommandCall, first_music};
use crate::document::Document;
use crate::finding::{first_from, kept, lemma_first_from};
use crate::laws::explicit::lemma_split_piece;
use crate::line_struct::{Span, range_between};
use crate::notes::Event;
use crate::protocol::EditView;
use crate::syntax::{Node, smallest_from, span_of};
use crate::text::{
    all_white, can_cut, cut_of, lemma_ascii_len, lemma_cut_middle, lemma_encode_concat,
    lemma_piece_bytes, on_boundary, piece, replaced, trimmed,
};

verus! {

/// With fewer plain endings than times, the last times have the last endings, one each, and all the
/// times before them have the first; with as many or more, each time has the ending of its number.
pub proof fn law_the_last_times_have_the_last_endings(n: int, m: int, j: int)
    requires
        1 <= n,
        1 <= m,
        0 <= j < n,
    ensures
        m <= n && j < m ==> place_among(n - j, n, m) == m - 1 - j,
        m <= n && j >= m ==> place_among(n - j, n, m) == 0,
        m >= n ==> place_among(n - j, n, m) == n - j - 1,
{
}

/// Endings that list their times are chosen by these lists: the first that lists a time is the ending
/// of that time, and a time that none lists has no ending. Endings without lists go by their order,
/// and without any endings no time has one.
pub proof fn law_an_ending_is_chosen_by_its_list(
    r: u32,
    n: u32,
    endings: Seq<EndingView>,
    k: int,
)
    requires
        endings.len() <= usize::MAX,
        1 <= r <= n,
    ensures
        ({
            let chosen = ending_of(r, n, endings);
            let some_list = exists|i: int|
                0 <= i < endings.len() && (#[trigger] endings[i]).voltas is Some;
            &&& endings.len() == 0 ==> chosen is None
            &&& some_list && lists_time(endings, k, r) && (forall|j: int|
                0 <= j < k ==> !#[trigger] lists_time(endings, j, r)) ==> chosen == Some(k as usize)
            &&& some_list && (forall|j: int|
                0 <= j < endings.len() ==> !#[trigger] lists_time(endings, j, r)) ==> chosen
                is None
            &&& endings.len() > 0 && !some_list ==> chosen is Some && chosen->0 < endings.len()
            &&& endings.len() >= n && !some_list ==> chosen == Some((r - 1) as usize)
            &&& 0 < endings.len() <= n && !some_list && n - r < endings.len() ==> chosen == Some(
                (endings.len() - 1 - (n - r)) as usize,
            )
            &&& 0 < endings.len() <= n && !some_list && n - r >= endings.len() ==> chosen == Some(
                0usize,
            )
        }),
{
    let fits = tagged(endings, r);
    let m = endings.len() as int;
    lemma_first_from(0, m, fits);
    assert forall|j: int| 0 <= j < m implies (#[trigger] fits(j) <==> lists_time(
        endings,
        j,
        r,
    )) by {}
    if m > 0 {
        law_the_last_times_have_the_last_endings(n as int, m, n - r);
    }
    if lists_time(endings, k, r) && (forall|j: int|
        0 <= j < k ==> !#[trigger] lists_time(endings, j, r)) {
        assert(fits(k));
        match first_from(0, m, fits) {
            Some(i) => {
                assert(fits(i as int));
                assert(lists_time(endings, i as int, r));
                if i > k {
                    assert(!fits(k));
                }
            },
            None => {
                assert(!fits(k));
            },
        }
    }
    if forall|j: int| 0 <= j < m ==> !#[trigger] lists_time(endings, j, r) {
        match first_from(0, m, fits) {
            Some(i) => {
                assert(fits(i as int));
                assert(lists_time(endings, i as int, r));
            },
            None => {},
        }
    }
}

/// Whether the ending at `k` has a list with a time in it.
pub open spec fn lists_time(endings: Seq<EndingView>, k: int, r: u32) -> bool {
    0 <= k < endings.len() && match endings[k].voltas {
        Some(times) => times.contains(r),
        None => false,
    }
}

/// Whether the call at `k` is the first `\alternative` written inside `[start, end)`.
pub open spec fn first_alternative_in(
    calls: Seq<CommandCall>,
    start: int,
    end: int,
    k: int,
) -> bool {
    &&& 0 <= k < calls.len()
    &&& calls[k].name@ == "alternative"@
    &&& start <= calls[k].keyword.start < end
    &&& forall|j: int|
        0 <= j < k ==> !((#[trigger] calls[j]).name@ == "alternative"@ && start
            <= calls[j].keyword.start < end)
}

/// Whether no `\alternative` is written inside `[start, end)`.
pub open spec fn no_alternative_in(calls: Seq<CommandCall>, start: int, end: int) -> bool {
    forall|j: int|
        0 <= j < calls.len() ==> !((#[trigger] calls[j]).name@ == "alternative"@ && start
            <= calls[j].keyword.start < end)
}

/// Whether a call is an `\alternative` with only white space between it and the body before it.
pub open spec fn right_behind(src: Seq<char>, call: CommandCall, end: int) -> bool {
    call.name@ == "alternative"@ && call.keyword.start >= end && all_white(
        cut_of(src, end, call.keyword.start as int),
    )
}

/// The endings of a repeat stand in the `\alternative` inside its body, where there is one: then the
/// music that is repeated stops in front of it. Otherwise they stand in the one right behind the body,
/// with only white space between: then the repeat reaches to its end. Without either, the repeat has
/// no endings and ends with its body.
pub proof fn law_where_the_endings_of_a_repeat_stand(
    document: Document,
    call: CommandCall,
    body: Span,
    block: Span,
    k: int,
)
    requires
        repeat_of(document, call) is Some,
        first_music(call.args@) == Some(body),
        0 <= k < document.calls().len(),
        first_music(document.calls()[k].args@) == Some(block),
    ensures
        ({
            let found = repeat_of(document, call)->0;
            let calls = document.calls();
            let within = no_alternative_in(calls, body.start as int, body.end as int);
            &&& first_alternative_in(calls, body.start as int, body.end as int, k) ==> {
                &&& found.alternative == Some(block)
                &&& found.repeated.end == calls[k].keyword.start
                &&& found.end == body.end
            }
            &&& within && right_behind(document.text@, calls[k], body.end as int) && (forall|j: int|
                0 <= j < k ==> !right_behind(
                    document.text@,
                    #[trigger] calls[j],
                    body.end as int,
                )) ==> found.alternative == Some(block) && found.end == block.end
            &&& within && (forall|j: int|
                0 <= j < calls.len() ==> !right_behind(
                    document.text@,
                    #[trigger] calls[j],
                    body.end as int,
                )) ==> found.alternative is None && found.end == body.end
        }),
{
    let calls = document.calls();
    let src = document.text@;
    assert(calls.len() == document.notes.commands.calls.len());
    let n = calls.len() as int;
    let inside = alternative_in(calls, body.start as int, body.end as int);
    let after = alternative_after(src, calls, body.end as int);
    lemma_first_from(0, n, inside);
    lemma_first_from(0, n, after);
    if first_alternative_in(calls, body.start as int, body.end as int, k) {
        assert(inside(k));
        match first_from(0, n, inside) {
            Some(i) => {
                assert(inside(i as int));
                if i > k {
                    assert(!inside(k));
                }
                if i < k {
                    assert(!(calls[i as int].name@ == "alternative"@));
                }
            },
            None => {
                assert(!inside(k));
            },
        }
    }
    if no_alternative_in(calls, body.start as int, body.end as int) {
        match first_from(0, n, inside) {
            Some(i) => {
                assert(inside(i as int));
                assert(calls[i as int].name@ == "alternative"@);
            },
            None => {},
        }
        if right_behind(src, calls[k], body.end as int) && (forall|j: int|
            0 <= j < k ==> !right_behind(src, #[trigger] calls[j], body.end as int)) {
            assert(after(k));
            match first_from(0, n, after) {
                Some(i) => {
                    assert(after(i as int));
                    assert(right_behind(src, calls[i as int], body.end as int));
                    if i > k {
                        assert(!after(k));
                    }
                },
                None => {
                    assert(!after(k));
                },
            }
        }
        if forall|j: int| 0 <= j < n ==> !right_behind(src, #[trigger] calls[j], body.end as int) {
            match first_from(0, n, after) {
                Some(i) => {
                    assert(after(i as int));
                    assert(right_behind(src, calls[i as int], body.end as int));
                },
                None => {},
            }
        }
    }
}

/// Every volta that lies in no other makes an ending, which lists its times and holds what stands in
/// its block; the endings come in the order of the voltas.
pub proof fn law_every_outermost_volta_is_an_ending(
    src: Seq<char>,
    calls: Seq<CommandCall>,
    voltas: Seq<usize>,
    n: int,
    k: int,
    block: Span,
    content: Span,
)
    requires
        0 <= k < n <= voltas.len(),
        outermost(calls, voltas, k),
        first_music(calls[voltas[k] as int].args@) == Some(block),
        trimmed_inside(src, block) == Some(content),
    ensures
        exists|i: int|
            {
                &&& 0 <= i < tagged_endings(src, calls, voltas, n).len()
                &&& i <= k
                &&& (#[trigger] tagged_endings(src, calls, voltas, n)[i]).span == content
                &&& tagged_endings(src, calls, voltas, n)[i].voltas == Some(
                    listed(calls[voltas[k] as int]),
                )
            },
    decreases n,
{
    let before = tagged_endings(src, calls, voltas, n - 1);
    let all = tagged_endings(src, calls, voltas, n);
    lemma_few_tagged(src, calls, voltas, n - 1);
    if k < n - 1 {
        law_every_outermost_volta_is_an_ending(src, calls, voltas, n - 1, k, block, content);
        let i = choose|i: int|
            {
                &&& 0 <= i < before.len()
                &&& i <= k
                &&& (#[trigger] before[i]).span == content
                &&& before[i].voltas == Some(listed(calls[voltas[k] as int]))
            };
        assert(all[i] == before[i]);
    } else {
        assert(all[before.len() as int].span == content);
    }
}

proof fn lemma_few_tagged(src: Seq<char>, calls: Seq<CommandCall>, voltas: Seq<usize>, n: int)
    requires
        0 <= n <= voltas.len(),
    ensures
        tagged_endings(src, calls, voltas, n).len() <= n,
    decreases n,
{
    if n > 0 {
        lemma_few_tagged(src, calls, voltas, n - 1);
    }
}

/// Without voltas, every block directly in an `\alternative` is an ending.
pub proof fn law_every_block_is_an_ending(
    src: Seq<char>,
    nodes: Seq<Node>,
    row: Seq<usize>,
    n: int,
    k: int,
    content: Span,
)
    requires
        0 <= k < n <= row.len(),
        nodes[row[k] as int].kind@ == "expression_block"@ || nodes[row[k] as int].kind@
            == "parallel_music"@,
        trimmed_inside(src, span_of(nodes, row[k] as int)) == Some(content),
    ensures
        plain_endings(src, nodes, row, n).contains(EndingView { span: content, voltas: None }),
    decreases n,
{
    let before = plain_endings(src, nodes, row, n - 1);
    let all = plain_endings(src, nodes, row, n);
    let one = EndingView { span: content, voltas: None };
    if k < n - 1 {
        law_every_block_is_an_ending(src, nodes, row, n - 1, k, content);
        let i = choose|i: int| 0 <= i < before.len() && before[i] == one;
        assert(all[i] == one);
    } else {
        assert(all[before.len() as int] == one);
    }
}

proof fn lemma_replace_middle(a: Seq<char>, b: Seq<char>, c: Seq<char>, with: Seq<char>)
    ensures
        replaced(
            a + b + c,
            encode_utf8(a).len() as int,
            (encode_utf8(a).len() + encode_utf8(b).len()) as int,
            with,
        ) == a + with + c,
{
    let none = Seq::<char>::empty();
    let whole = a + b + c;
    lemma_cut_middle(a, b, c);
    assert(whole =~= none + a + (b + c));
    lemma_cut_middle(none, a, b + c);
    assert(whole =~= (a + b) + c + none);
    lemma_cut_middle(a + b, c, none);
    lemma_encode_concat(a, b);
    lemma_encode_concat(a + b, c);
    assert(encode_utf8(none).len() == 0);
}

/// Whether a volta is the only one in some music.
pub open spec fn only_volta(document: Document, body: Span, v: int) -> bool {
    let calls = document.calls();
    0 <= v < calls.len() && kept(
        calls.len() as int,
        volta_in(calls, body.start as int, body.end as int),
    ) == seq![v as usize]
}

/// Whether the parts of a volta in some music follow one another: what is before it, its keyword and
/// list, what its block holds, the end of its block, and what is behind it.
pub open spec fn laid_out(document: Document, body: Span, volta: CommandCall, block: Span, content: Span) -> bool {
    let src = document.text@;
    &&& body.start <= volta.keyword.start <= content.start <= content.end <= block.end <= body.end
    &&& can_cut(src, body.start as int, body.end as int)
    &&& on_boundary(src, volta.keyword.start as int)
    &&& on_boundary(src, content.start as int)
    &&& on_boundary(src, content.end as int)
    &&& on_boundary(src, block.end as int)
}

proof fn lemma_blank_run(text: Seq<char>, run: Seq<char>, rest: Seq<char>, from: int)
    requires
        text == run + rest,
        0 <= from <= run.len(),
        forall|k: int| 0 <= k < run.len() ==> #[trigger] run[k] == ' ' || run[k] == '\t',
        rest.len() > 0 ==> rest[0] != ' ' && rest[0] != '\t',
    ensures
        blanks(text, from) == run.len() - from,
    decreases run.len() - from,
{
    if from < run.len() {
        assert(text[from] == run[from]);
        lemma_blank_run(text, run, rest, from + 1);
    } else if rest.len() > 0 {
        assert(text[from] == rest[0]);
    }
}

/// On a time that a volta lists, what stands in its block plays in place of it; on any other time it
/// is gone, and with it the blanks behind it.
pub proof fn law_a_volta_plays_on_the_times_it_lists(
    document: Document,
    repeat: Repeat,
    r: u32,
    v: int,
    block: Span,
    content: Span,
    run: Seq<char>,
    rest: Seq<char>,
)
    requires
        only_volta(document, repeat.repeated, v),
        first_music(document.calls()[v].args@) == Some(block),
        trimmed_inside(document.text@, block) == Some(content),
        laid_out(document, repeat.repeated, document.calls()[v], block, content),
        document.bytes().len() <= usize::MAX,
        cut_of(document.text@, block.end as int, repeat.repeated.end as int) == run + rest,
        forall|k: int| 0 <= k < run.len() ==> #[trigger] run[k] == ' ' || run[k] == '\t',
        rest.len() > 0 ==> rest[0] != ' ' && rest[0] != '\t',
    ensures
        ({
            let src = document.text@;
            let volta = document.calls()[v];
            let before = cut_of(
                src,
                repeat.repeated.start as int,
                volta.keyword.start as int,
            );
            let inside = cut_of(src, content.start as int, content.end as int);
            &&& listed(volta).contains(r) ==> played(document, repeat, r) == trimmed(
                before + inside + run + rest,
            )
            &&& !listed(volta).contains(r) ==> played(document, repeat, r) == trimmed(
                before + rest,
            )
        }),
{
    let src = document.text@;
    let body = repeat.repeated;
    let calls = document.calls();
    let voltas = seq![v as usize];
    let volta = calls[v];
    let a = body.start as int;
    let b = volta.keyword.start as int;
    let c = content.start as int;
    let d = content.end as int;
    let e = block.end as int;
    let f = body.end as int;
    lemma_split_piece(src, a, e, f);
    lemma_split_piece(src, a, d, e);
    lemma_split_piece(src, a, c, d);
    lemma_split_piece(src, a, b, c);
    let before = piece(src, a, b);
    let head = piece(src, b, c);
    let inside = piece(src, c, d);
    let tail = piece(src, d, e);
    let behind = piece(src, e, f);
    let raw = piece(src, a, f);
    assert(calls.len() == document.notes.commands.calls.len());
    assert(voltas[0] as int == v);
    assert(raw =~= before + head + inside + tail + behind);
    assert(!in_dropped(calls, voltas, volta, r)) by {
        if in_dropped(calls, voltas, volta, r) {
            let k = choose|k: int|
                0 <= k < voltas.len() && crate::code_action::inline_repeats::holds_call(
                    calls[#[trigger] voltas[k] as int],
                    volta,
                ) && !plays(calls[voltas[k] as int], r);
            assert(k == 0);
        }
    }
    assert(plays(volta, r) <==> listed(volta).contains(r));
    let splices = body_splices(src, body, calls, voltas, r, 1);
    assert(body_splices(src, body, calls, voltas, r, 0) =~= Seq::empty());
    assert(splices =~= volta_splices(src, body, calls, voltas, volta, r));
    lemma_encode_concat(before, head);
    lemma_encode_concat(before + head, inside);
    if listed(volta).contains(r) {
        let first = SpliceView { start: volta.keyword.start, end: content.start, text: Seq::empty() };
        let second = SpliceView { start: content.end, end: block.end, text: Seq::empty() };
        assert(splices =~= seq![first, second]);
        lemma_unwrapped(a, before, head, inside, tail, behind, first, second);
        assert(before + inside + behind =~= before + inside + run + rest);
    } else {
        lemma_blank_run(behind, run, rest, 0);
        assert forall|i: int| 0 <= i < run.len() implies (#[trigger] run[i]) as u32 <= 0x7f by {
            assert(run[i] == ' ' || run[i] == '\t');
        }
        lemma_ascii_len(run);
        lemma_encode_concat(run, rest);
        let one = SpliceView {
            start: volta.keyword.start,
            end: (block.end + run.len()) as usize,
            text: Seq::empty(),
        };
        lemma_piece_bytes(src, a, f);
        assert(splices =~= seq![one]);
        lemma_encode_concat(head, inside);
        lemma_encode_concat(head + inside, tail);
        lemma_encode_concat(head + inside + tail, run);
        let gone = head + inside + tail + run;
        assert(raw =~= before + gone + rest);
        lemma_dropped(a, before, gone, rest, one);
    }
}

proof fn lemma_dropped(
    base: int,
    before: Seq<char>,
    gone: Seq<char>,
    rest: Seq<char>,
    one: SpliceView,
)
    requires
        one.start - base == encode_utf8(before).len(),
        one.end - one.start == encode_utf8(gone).len(),
        one.text.len() == 0,
    ensures
        spliced(before + gone + rest, base, latest_first(seq![one])) == before + rest,
{
    let raw = before + gone + rest;
    let none = Seq::<SpliceView>::empty();
    lemma_replace_middle(before, gone, rest, one.text);
    assert(before + one.text + rest =~= before + rest);
    assert(seq![one].drop_last() =~= none);
    assert(latest_first(none) =~= none);
    assert(latest_first(seq![one]) =~= seq![one]);
    assert(spliced(raw, base, none) == raw);
}

proof fn lemma_unwrapped(
    base: int,
    before: Seq<char>,
    head: Seq<char>,
    inside: Seq<char>,
    tail: Seq<char>,
    behind: Seq<char>,
    first: SpliceView,
    second: SpliceView,
)
    requires
        first.start - base == encode_utf8(before).len(),
        first.end - first.start == encode_utf8(head).len(),
        second.start - first.end == encode_utf8(inside).len(),
        second.end - second.start == encode_utf8(tail).len(),
        first.text.len() == 0,
        second.text.len() == 0,
    ensures
        spliced(
            before + head + inside + tail + behind,
            base,
            latest_first(seq![first, second]),
        ) == before + inside + behind,
{
    let raw = before + head + inside + tail + behind;
    let none = Seq::<char>::empty();
    assert(first.text =~= none && second.text =~= none);
    lemma_encode_concat(before, head);
    lemma_encode_concat(before + head, inside);
    lemma_two(first, second);
    if first.start < second.start {
        lemma_spliced_two(raw, base, second, first);
        lemma_replace_middle(before + head + inside, tail, behind, none);
        assert(before + head + inside + none + behind =~= before + head + (inside + behind));
        lemma_replace_middle(before, head, inside + behind, none);
        assert(before + none + (inside + behind) =~= before + inside + behind);
    } else {
        lemma_no_bytes(head);
        lemma_no_bytes(inside);
        lemma_spliced_two(raw, base, first, second);
        assert(raw =~= before + head + (tail + behind));
        lemma_replace_middle(before, head, tail + behind, none);
        assert(before + none + (tail + behind) =~= before + tail + behind);
        lemma_replace_middle(before, tail, behind, none);
        assert(before + none + behind =~= before + inside + behind);
    }
}

proof fn lemma_no_bytes(text: Seq<char>)
    requires
        encode_utf8(text).len() == 0,
    ensures
        text.len() == 0,
{
    let none = Seq::<char>::empty();
    assert(encode_utf8(none).len() == 0);
    assert(encode_utf8(text) =~= encode_utf8(none));
    crate::text::lemma_bytes_injective(text, none);
}

proof fn lemma_two(first: SpliceView, second: SpliceView)
    ensures
        latest_first(seq![first, second]) == if first.start >= second.start {
            seq![first, second]
        } else {
            seq![second, first]
        },
{
    let both = seq![first, second];
    let none = Seq::<SpliceView>::empty();
    assert(both.drop_last() =~= seq![first]);
    assert(seq![first].drop_last() =~= none);
    assert(latest_first(none) =~= none);
    assert(latest_first(seq![first]) =~= seq![first]);
    assert(put_in_order(none, second) =~= seq![second]);
    assert(seq![second].push(first) =~= seq![second, first]);
    assert(seq![first].push(second) =~= both);
}

proof fn lemma_spliced_two(text: Seq<char>, base: int, one: SpliceView, other: SpliceView)
    ensures
        spliced(text, base, seq![one, other]) == replaced(
            replaced(text, one.start - base, one.end - base, one.text),
            other.start - base,
            other.end - base,
            other.text,
        ),
{
    let both = seq![one, other];
    let none = Seq::<SpliceView>::empty();
    assert(both.drop_last() =~= seq![one]);
    assert(seq![one].drop_last() =~= none);
    assert(spliced(text, base, none) == text);
    assert(spliced(text, base, seq![one]) == replaced(
        text,
        one.start - base,
        one.end - base,
        one.text,
    ));
}

/// Whether the call `inner` stands in the block of `outer`.
pub open spec fn stands_inside(inner: CommandCall, outer: CommandCall, block: Span) -> bool {
    &&& outer.span != inner.span
    &&& first_music(outer.args@) == Some(block)
    &&& block.start <= inner.keyword.start
    &&& inner.span.end <= block.end
}

/// A volta that stands in one that does not play goes with it, and nothing more is cut out for it.
pub proof fn law_a_volta_in_one_that_does_not_play_goes_with_it(
    src: Seq<char>,
    body: Span,
    calls: Seq<CommandCall>,
    voltas: Seq<usize>,
    k: int,
    outer: int,
    block: Span,
    r: u32,
)
    requires
        0 <= k < voltas.len(),
        0 <= outer < voltas.len(),
        stands_inside(calls[voltas[k] as int], calls[voltas[outer] as int], block),
        !listed(calls[voltas[outer] as int]).contains(r),
    ensures
        volta_splices(src, body, calls, voltas, calls[voltas[k] as int], r).len() == 0,
{
    assert(holds_call(calls[voltas[outer] as int], calls[voltas[k] as int]));
    assert(!plays(calls[voltas[outer] as int], r));
}

/// Whether an event stands in the block of one of the voltas that do not play on a time.
pub open spec fn is_silent(
    event: Event,
    calls: Seq<CommandCall>,
    voltas: Seq<usize>,
    r: u32,
) -> bool {
    exists|k: int|
        0 <= k < voltas.len() && !listed(calls[(#[trigger] voltas[k]) as int]).contains(r)
            && first_music(calls[voltas[k] as int].args@) is Some && first_music(
            calls[voltas[k] as int].args@,
        )->0.start <= event.span.start && event.span.end <= first_music(
            calls[voltas[k] as int].args@,
        )->0.end
}

/// The events that are heard on a time are those that stand in no volta that does not play then.
pub proof fn law_what_a_silent_volta_holds_is_not_heard(
    events: Seq<Event>,
    at: Seq<usize>,
    calls: Seq<CommandCall>,
    voltas: Seq<usize>,
    r: u32,
    k: int,
)
    requires
        0 <= k < at.len(),
    ensures
        !is_silent(events[at[k] as int], calls, voltas, r) ==> surviving(
            events,
            at,
            calls,
            voltas,
            r,
        ).contains(at[k]),
        is_silent(events[at[k] as int], calls, voltas, r) && (forall|j: int|
            0 <= j < at.len() && j != k ==> #[trigger] at[j] != at[k]) ==> !surviving(
            events,
            at,
            calls,
            voltas,
            r,
        ).contains(at[k]),
    decreases at.len(),
{
    let front = at.drop_last();
    let before = surviving(events, front, calls, voltas, r);
    let all = surviving(events, at, calls, voltas, r);
    lemma_silent(events[at.last() as int], calls, voltas, r);
    if k < at.len() - 1 {
        assert(front[k] == at[k]);
        law_what_a_silent_volta_holds_is_not_heard(events, front, calls, voltas, r, k);
        if before.contains(at[k]) {
            let i = choose|i: int| 0 <= i < before.len() && before[i] == at[k];
            assert(all[i] == at[k]);
        }
        if forall|j: int| 0 <= j < at.len() && j != k ==> #[trigger] at[j] != at[k] {
            assert forall|j: int| 0 <= j < front.len() && j != k implies #[trigger] front[j]
                != front[k] by {
                assert(at[j] != at[k]);
            }
            assert(at[at.len() - 1] != at[k]);
        }
    } else {
        if !is_silent(events[at[k] as int], calls, voltas, r) {
            assert(all[before.len() as int] == at[k]);
        } else if forall|j: int| 0 <= j < at.len() && j != k ==> #[trigger] at[j] != at[k] {
            lemma_survivors(events, front, calls, voltas, r);
            if all.contains(at[k]) {
                let i = choose|i: int| 0 <= i < before.len() && before[i] == at[k];
                assert(front.contains(before[i]));
                let j = choose|j: int| 0 <= j < front.len() && front[j] == at[k];
                assert(at[j] == at[k]);
            }
        }
    }
}

proof fn lemma_silent(event: Event, calls: Seq<CommandCall>, voltas: Seq<usize>, r: u32)
    ensures
        is_silent(event, calls, voltas, r) <==> event_dropped(event, calls, voltas, r),
{
    if is_silent(event, calls, voltas, r) {
        let k = choose|k: int|
            0 <= k < voltas.len() && !listed(calls[(#[trigger] voltas[k]) as int]).contains(r)
                && first_music(calls[voltas[k] as int].args@) is Some && first_music(
                calls[voltas[k] as int].args@,
            )->0.start <= event.span.start && event.span.end <= first_music(
                calls[voltas[k] as int].args@,
            )->0.end;
        assert(!plays(calls[voltas[k] as int], r));
    }
    if event_dropped(event, calls, voltas, r) {
        let k = choose|k: int|
            0 <= k < voltas.len() && !plays(calls[#[trigger] voltas[k] as int], r)
                && match first_music(calls[voltas[k] as int].args@) {
                Some(body) => body.start <= event.span.start && event.span.end <= body.end,
                None => false,
            };
        assert(!listed(calls[voltas[k] as int]).contains(r));
    }
}

proof fn lemma_survivors(
    events: Seq<Event>,
    at: Seq<usize>,
    calls: Seq<CommandCall>,
    voltas: Seq<usize>,
    r: u32,
)
    ensures
        forall|i: int|
            0 <= i < surviving(events, at, calls, voltas, r).len() ==> at.contains(
                #[trigger] surviving(events, at, calls, voltas, r)[i],
            ),
    decreases at.len(),
{
    if at.len() > 0 {
        let front = at.drop_last();
        lemma_survivors(events, front, calls, voltas, r);
        let before = surviving(events, front, calls, voltas, r);
        let all = surviving(events, at, calls, voltas, r);
        assert forall|i: int| 0 <= i < all.len() implies at.contains(#[trigger] all[i]) by {
            if i < before.len() {
                assert(front.contains(before[i]));
                let j = choose|j: int| 0 <= j < front.len() && front[j] == before[i];
                assert(at[j] == all[i]);
            } else {
                assert(at[at.len() - 1] == all[i]);
            }
        }
    }
}

/// Whether an ending is that of a volta that lies in no other.
pub open spec fn from_outermost(
    calls: Seq<CommandCall>,
    voltas: Seq<usize>,
    n: int,
    ending: EndingView,
) -> bool {
    exists|k: int|
        0 <= k < n && #[trigger] outermost(calls, voltas, k) && ending.voltas == Some(
            listed(calls[voltas[k] as int]),
        )
}

/// A volta inside another makes no ending of its own.
pub proof fn law_only_outermost_voltas_are_endings(
    src: Seq<char>,
    calls: Seq<CommandCall>,
    voltas: Seq<usize>,
    n: int,
    i: int,
)
    requires
        0 <= n <= voltas.len(),
        0 <= i < tagged_endings(src, calls, voltas, n).len(),
    ensures
        from_outermost(calls, voltas, n, tagged_endings(src, calls, voltas, n)[i]),
    decreases n,
{
    if n > 0 {
        let before = tagged_endings(src, calls, voltas, n - 1);
        let all = tagged_endings(src, calls, voltas, n);
        if i < before.len() {
            law_only_outermost_voltas_are_endings(src, calls, voltas, n - 1, i);
            assert(all[i] == before[i]);
            let k = choose|k: int|
                0 <= k < n - 1 && #[trigger] outermost(calls, voltas, k) && before[i].voltas
                    == Some(listed(calls[voltas[k] as int]));
            assert(outermost(calls, voltas, k));
        } else {
            assert(outermost(calls, voltas, n - 1));
        }
    }
}

/// A volta that stands in another is not outermost.
pub proof fn law_a_volta_in_another_is_not_outermost(
    calls: Seq<CommandCall>,
    voltas: Seq<usize>,
    k: int,
    outer: int,
    block: Span,
)
    requires
        0 <= k < voltas.len(),
        0 <= outer < voltas.len(),
        stands_inside(calls[voltas[k] as int], calls[voltas[outer] as int], block),
    ensures
        !outermost(calls, voltas, k),
{
    assert(holds_call(calls[voltas[outer] as int], calls[voltas[k] as int]));
}

/// A repeat sits in the block that is the parent of its keyword, in braces or in doubled angle
/// brackets; then its music needs no braces of its own.
pub proof fn law_a_repeat_sits_in_the_block_around_its_keyword(document: Document, call: CommandCall)
    requires
        repeat_of(document, call) is Some,
    ensures
        ({
            let nodes = document.nodes();
            let at = call.keyword.start as int;
            let node = smallest_from(nodes, 0, at, at + 1);
            let parent = nodes[nodes[node].parent as int];
            let block = repeat_of(document, call)->0.block;
            let inside = node != 0 && (parent.kind@ == "expression_block"@ || parent.kind@
                == "parallel_music"@);
            &&& inside ==> block == Some(Span { start: parent.start, end: parent.end })
            &&& !inside ==> block is None
        }),
{
}

/// Whether the event at `k` is the first one that follows a repeat in its block.
pub open spec fn follows_first(events: Seq<Event>, end: usize, block: Span, k: int) -> bool {
    &&& 0 <= k < events.len()
    &&& end <= events[k].span.start
    &&& events[k].span.end <= block.end
    &&& forall|j: int|
        0 <= j < k ==> !(end <= (#[trigger] events[j]).span.start && events[j].span.end
            <= block.end)
}

/// What follows a repeat is the first event behind it in its block. Where its duration is not written
/// and is not the one in force behind the unfolded music, it is written behind the event's value.
pub proof fn law_the_note_behind_a_repeat_keeps_its_duration(
    document: Document,
    repeat: Repeat,
    pred: PredView,
    relative: bool,
    block: Span,
    k: int,
)
    requires
        repeat.block == Some(block),
        follows_first(document.events(), repeat.end, block, k),
    ensures
        ({
            let note = document.events()[k];
            let edits = following_edits(document, repeat, pred, relative);
            let place = Span { start: note.value_end, end: note.value_end };
            &&& !note.duration_written && note.duration@ != pred.duration ==> edits.len() > 0
                && edits[0] == (EditView {
                range: range_between(document.bytes(), place),
                new_text: note.duration@,
            })
            &&& (note.duration_written || note.duration@ == pred.duration) && !relative
                ==> edits.len() == 0
        }),
{
    let events = document.events();
    assert(events.len() == document.notes.events.len());
    let n = events.len() as int;
    let fits = follows(events, repeat.end as int, block.end as int);
    lemma_first_from(0, n, fits);
    assert(fits(k));
    match first_from(0, n, fits) {
        Some(j) => {
            assert(fits(j as int));
            if j < k {
                assert(repeat.end <= events[j as int].span.start);
            } else if j > k {
                assert(!fits(k));
            }
        },
        None => {
            assert(!fits(k));
        },
    }
}

/// Before its music, a repeat has in force what the first event of the music carries, so that nothing
/// has to be written on that event the first time.
pub proof fn law_the_first_event_of_a_repeat_stays_as_it_is(
    src: Seq<char>,
    events: Seq<Event>,
    at: Seq<usize>,
)
    requires
        at.len() > 0,
    ensures
        ({
            let first = events[at[0] as int];
            let state = seed(events, at);
            &&& state.duration == first.duration@
            &&& first.relative is Some ==> state.pitch == Some(first.relative->0.pitch)
            &&& first.relative is None ==> state.pitch is None
            &&& event_fixes(src, first, false, state).len() == 0
        }),
{
}

} // verus!
