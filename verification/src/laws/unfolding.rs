//! Unfolding a repeat: which repeats there are to unfold, what their music is, and what it becomes.
use vstd::prelude::*;
use vstd::utf8::*;
use crate::code_action::CodeAction;
use crate::code_action::inline_repeats::{
    InlineRepeats, Repeat, alternative_after, alternative_in, alternative_of, copies, delimiter,
    event_in, first_count, first_word, inside, joined, law_explicit_music_unfolds_into_copies,
    opens_block, repeat_header, repeat_of, repeat_selected, seed, separator_for, trimmed_inside,
    unfolded, volta_in,
};
use crate::code_action::inverse::{lemma_trimmed, lemma_trimmed_range, lemma_white_ends, tight};
use crate::command::{Arg, CommandCall, arg_view, first_music, header_end};
use crate::document::Document;
use crate::finding::{first_from, kept, lemma_first_from, lemma_kept};
use crate::laws::placing::starts_line_of;
use crate::line_struct::{Span, line_start, offset_of, range_between};
use crate::protocol::Range;
use crate::text::{
    all_white, can_cut, cut_of, leading_white, lemma_ascii_len, lemma_encode_concat,
    lemma_piece_bytes, lemma_replaced_inside, piece, trailing_white, trimmed, trimmed_end,
    trimmed_start, white,
};

verus! {

/// Whether a call is a `\repeat` with a kind, a count and a body.
pub open spec fn repeats_music(
    call: CommandCall,
    kind: Seq<char>,
    count: u32,
    body: Span,
) -> bool {
    &&& call.name@ == "repeat"@
    &&& call.args@.len() == 3
    &&& call.args@[0] matches Arg::BareWord { text, .. } && text@ == kind
    &&& call.args@[1] matches Arg::Count { value, .. } && value == count
    &&& call.args@[2] == (Arg::Music { span: body })
}

/// Where the count of a `\repeat` ends.
pub open spec fn count_end(call: CommandCall) -> int {
    match call.args@[1] {
        Arg::Count { span, .. } => span.end as int,
        _ => 0,
    }
}

/// Whether the `k`-th call is the repeat that a cursor is on: the first one with the cursor between
/// the start of its keyword and the end of its count.
pub open spec fn cursor_on(calls: Seq<CommandCall>, offset: int, k: int) -> bool {
    &&& 0 <= k < calls.len()
    &&& calls[k].keyword.start <= offset <= count_end(calls[k])
    &&& forall|j: int|
        0 <= j < k ==> (#[trigger] calls[j]).name@ != "repeat"@ || offset < calls[j].keyword.start
            || exists|kind: Seq<char>, count: u32, body: Span|
                #[trigger] repeats_music(calls[j], kind, count, body) && count_end(calls[j])
                    < offset
}

proof fn lemma_simple(call: CommandCall, kind: Seq<char>, count: u32, body: Span)
    requires
        repeats_music(call, kind, count, body),
    ensures
        first_word(call.args@) == Some(kind),
        first_count(call.args@) == Some(count),
        first_music(call.args@) == Some(body),
        header_end(call.args@, call.keyword.end) == count_end(call),
{
    let args = call.args@;
    let one = args.drop_first();
    let two = one.drop_first();
    assert(one[0] == args[1] && one[1] == args[2]);
    assert(two[0] == args[2]);
    reveal_with_fuel(first_word, 2);
    reveal_with_fuel(first_count, 3);
    reveal_with_fuel(first_music, 4);
    reveal_with_fuel(header_end, 4);
    assert(header_end(one, arg_view(args[0]).place().end) == header_end(
        two,
        arg_view(args[1]).place().end,
    ));
    assert(header_end(two, arg_view(args[1]).place().end) == arg_view(args[1]).place().end);
}

proof fn lemma_found(
    document: Document,
    selection: Range,
    offset: int,
    k: int,
    kind: Seq<char>,
    count: u32,
    body: Span,
)
    requires
        offset_of(document.bytes(), selection.start) == Some(offset),
        cursor_on(document.calls(), offset, k),
        repeats_music(document.calls()[k], kind, count, body),
    ensures
        repeat_selected(document, selection) == repeat_of(document, document.calls()[k]),
{
    let calls = document.calls();
    assert(calls.len() == document.notes.commands.calls.len());
    let fits = repeat_header(calls, offset);
    lemma_simple(calls[k], kind, count, body);
    assert(fits(k));
    assert forall|j: int| 0 <= j < k implies !#[trigger] fits(j) by {
        if calls[j].name@ == "repeat"@ && offset >= calls[j].keyword.start {
            let (a, b, c) = choose|kind: Seq<char>, count: u32, body: Span|
                #[trigger] repeats_music(calls[j], kind, count, body) && count_end(calls[j])
                    < offset;
            lemma_simple(calls[j], a, b, c);
        }
    }
    lemma_first_from(0, calls.len() as int, fits);
    match first_from(0, calls.len() as int, fits) {
        Some(m) => {
            if m < k {
                assert(!fits(m as int));
            } else if m > k {
                assert(!fits(k));
            }
        },
        None => {
            assert(!fits(k));
        },
    }
}

/// Whether a document holds no call of a name.
pub open spec fn never_called(document: Document, name: Seq<char>) -> bool {
    forall|j: int|
        0 <= j < document.calls().len() ==> (#[trigger] document.calls()[j]).name@ != name
}

/// Whether `text` is a block: some music between braces, or between doubled angle brackets.
pub open spec fn is_block_text(text: Seq<char>, music: Seq<char>) -> bool {
    ||| text == seq!['{'] + music + seq!['}']
    ||| text == seq!['<', '<'] + music + seq!['>', '>']
}

/// Whether `text` starts as a block does.
pub open spec fn starts_block(text: Seq<char>) -> bool {
    text.len() > 0 && (text[0] == '{' || (text.len() > 1 && text[0] == '<' && text[1] == '<'))
}

/// A tremolo is never unfolded, and neither is a repeat of no times; a repeat of any of the other four
/// kinds is, if it has music.
pub proof fn law_which_repeats_unfold(
    document: Document,
    selection: Range,
    offset: int,
    k: int,
    kind: Seq<char>,
    count: u32,
    body: Span,
)
    requires
        offset_of(document.bytes(), selection.start) == Some(offset),
        cursor_on(document.calls(), offset, k),
        repeats_music(document.calls()[k], kind, count, body),
        can_cut(document.text@, body.start as int, body.end as int),
    ensures
        kind == "tremolo"@ || count == 0 ==> !InlineRepeats::applies(document, selection)
            && InlineRepeats::outcome(document, selection) is None,
        count > 0 && (kind == "volta"@ || kind == "unfold"@ || kind == "percent"@ || kind
            == "segno"@) && !starts_block(
            cut_of(document.text@, body.start as int, body.end as int),
        ) && body.start < body.end && cut_of(
            document.text@,
            body.start as int,
            body.end as int,
        ) != seq!['<'] ==> InlineRepeats::applies(document, selection)
            && InlineRepeats::outcome(document, selection) is Some,
        forall|music: Seq<char>|
            count > 0 && (kind == "volta"@ || kind == "unfold"@ || kind == "percent"@ || kind
                == "segno"@) && #[trigger] is_block_text(
                cut_of(document.text@, body.start as int, body.end as int),
                music,
            ) ==> InlineRepeats::applies(document, selection) && InlineRepeats::outcome(
                document,
                selection,
            ) is Some,
{
    lemma_found(document, selection, offset, k, kind, count, body);
    lemma_simple(document.calls()[k], kind, count, body);
    reveal_strlit("tremolo");
    reveal_strlit("volta");
    reveal_strlit("unfold");
    reveal_strlit("percent");
    reveal_strlit("segno");
    assert("tremolo"@.len() == 7 && "tremolo"@[0] == 't');
    assert("volta"@.len() == 5);
    assert("unfold"@.len() == 6);
    assert("percent"@.len() == 7 && "percent"@[0] == 'p');
    assert("segno"@.len() == 5);
    let text = cut_of(document.text@, body.start as int, body.end as int);
    if !starts_block(text) && body.start < body.end && text != seq!['<'] {
        lemma_first_bytes(document.text@, body.start as int, body.end as int);
        lemma_opens(document.text@, body);
        if text[0] == '<' && text.len() == 1 {
            assert(text =~= seq!['<']);
        }
    }
    assert forall|music: Seq<char>| #[trigger] is_block_text(text, music) implies trimmed_inside(
        document.text@,
        body,
    ) is Some by {
        lemma_block_inside(document.text@, body, music);
    }
}

/// A text starts with the bytes of its first characters.
proof fn lemma_first_bytes(src: Seq<char>, from: int, to: int)
    requires
        can_cut(src, from, to),
        from < to,
    ensures
        ({
            let text = piece(src, from, to);
            let bytes = encode_utf8(src);
            &&& text.len() > 0
            &&& to <= bytes.len()
            &&& bytes[from] == 123 <==> text[0] == '{'
            &&& bytes[from] == 60 <==> text[0] == '<'
            &&& text[0] == '<' && text.len() > 1 ==> from + 1 < to
            &&& text[0] == '<' && from + 1 < to ==> text.len() > 1 && (bytes[from + 1] == 60 <==> text[1] == '<')
        }),
{
    let text = piece(src, from, to);
    lemma_piece_bytes(src, from, to);
    let own = encode_utf8(text);
    assert(own =~= encode_utf8(src).subrange(from, to));
    if text.len() == 0 {
        assert(own.len() == 0);
    }
    lemma_first_char(text);
    assert(own[0] == encode_utf8(src)[from]);
    if text[0] == '<' {
        let rest = text.drop_first();
        assert(own =~= seq![60u8] + encode_utf8(rest));
        if rest.len() > 0 {
            lemma_first_char(rest);
            assert(own[1] == encode_utf8(rest)[0]);
            assert(own[1] == encode_utf8(src)[from + 1]);
            assert(rest[0] == text[1]);
        } else {
            assert(encode_utf8(rest).len() == 0);
        }
    }
}

proof fn lemma_first_char(text: Seq<char>)
    requires
        text.len() > 0,
    ensures
        encode_utf8(text).len() > 0,
        encode_utf8(text)[0] == 123 <==> text[0] == '{',
        encode_utf8(text)[0] == 60 <==> text[0] == '<',
        text[0] as u32 <= 0x7f ==> encode_utf8(text) == seq![text[0] as u8] + encode_utf8(
            text.drop_first(),
        ),
{
    encode_utf8_first_scalar(text);
    let c = text[0] as u32;
    char_is_scalar(text[0]);
    let bytes = encode_utf8(text);
    char_u32_cast(text[0], c);
    char_u32_cast('{', 123u32);
    char_u32_cast('<', 60u32);
    if c <= 0x7f {
        assert(c & 0x7f == c) by (bit_vector)
            requires
                c <= 0x7f,
        ;
        assert(encode_scalar(c) =~= seq![c as u8]);
        assert(bytes =~= seq![c as u8] + encode_utf8(text.drop_first()));
        assert(bytes[0] == c as u8);
    } else {
        assert(!is_leading_byte_width_1(bytes[0]));
    }
}

/// A block opens where its text starts as one.
proof fn lemma_opens(src: Seq<char>, body: Span)
    requires
        can_cut(src, body.start as int, body.end as int),
        body.start < body.end,
    ensures
        starts_block(cut_of(src, body.start as int, body.end as int)) ==> opens_block(
            encode_utf8(src),
            body,
        ),
        opens_block(encode_utf8(src), body) && (body.start + 1 < body.end || encode_utf8(
            src,
        )[body.start as int] == 123) ==> starts_block(
            cut_of(src, body.start as int, body.end as int),
        ),
{
    lemma_first_bytes(src, body.start as int, body.end as int);
}

/// The inside of a block is what stands between its delimiters.
proof fn lemma_block_inside(src: Seq<char>, body: Span, music: Seq<char>)
    requires
        can_cut(src, body.start as int, body.end as int),
        is_block_text(cut_of(src, body.start as int, body.end as int), music),
    ensures
        opens_block(encode_utf8(src), body),
        ({
            let w = delimiter(encode_utf8(src), body);
            &&& inside(encode_utf8(src), body) == Some(
                Span { start: (body.start + w) as usize, end: (body.end - w) as usize },
            )
            &&& body.start + w <= body.end - w
            &&& can_cut(src, body.start + w, body.end - w)
            &&& cut_of(src, body.start + w, body.end - w) == music
        }),
        trimmed_inside(src, body) is Some,
{
    let text = piece(src, body.start as int, body.end as int);
    lemma_piece_bytes(src, body.start as int, body.end as int);
    let (open, close) = if text == seq!['{'] + music + seq!['}'] {
        (seq!['{'], seq!['}'])
    } else {
        (seq!['<', '<'], seq!['>', '>'])
    };
    assert(text == open + music + close);
    lemma_ascii_len(open);
    lemma_ascii_len(close);
    lemma_replaced_inside(
        src,
        body.start as int,
        body.end as int,
        open,
        music,
        close,
        Seq::empty(),
    );
    assert(text.len() >= 2);
    assert(text[0] == open[0]);
    lemma_first_bytes(src, body.start as int, body.end as int);
    if open.len() == 2 {
        assert(text[1] == '<');
    }
}

/// What stands between the delimiters of a block, with the white space at its ends left out.
proof fn lemma_block_trimmed(src: Seq<char>, body: Span, music: Seq<char>)
    requires
        can_cut(src, body.start as int, body.end as int),
        is_block_text(cut_of(src, body.start as int, body.end as int), music),
        !all_white(music),
        encode_utf8(src).len() <= usize::MAX,
    ensures
        trimmed_inside(src, body) is Some,
        ({
            let found = trimmed_inside(src, body)->0;
            is_trimmed(music, cut_of(src, found.start as int, found.end as int))
        }),
{
    lemma_block_inside(src, body, music);
    let w = delimiter(encode_utf8(src), body);
    let from = body.start + w;
    let to = body.end - w;
    lemma_white_ends(music);
    let n = leading_white(music) as int;
    let m = music.len() - trailing_white(music);
    if n >= music.len() {
        assert(music.subrange(0, n) =~= music);
        assert(all_white(music));
    }
    let before = music.subrange(0, n);
    let content = music.subrange(n, m);
    let behind = music.subrange(m, music.len() as int);
    assert(music =~= before + content + behind);
    lemma_trimmed_range(src, from, to, before, content, behind);
}

/// Whether `text` is some text without the white space at its ends.
pub open spec fn is_trimmed(whole: Seq<char>, text: Seq<char>) -> bool {
    &&& tight(text)
    &&& exists|before: Seq<char>, behind: Seq<char>|
        #[trigger] all_white(before) && #[trigger] all_white(behind) && whole == before + text
            + behind
}

/// The music of a repeat is that of its body. A body that is no block is repeated whole; of a block it
/// is what stands between the delimiters, without the white space at its ends. Without an
/// `\alternative`, the repeat reaches from its keyword to the end of its body.
pub proof fn law_the_music_of_a_repeat_is_its_body(
    document: Document,
    selection: Range,
    offset: int,
    k: int,
    kind: Seq<char>,
    count: u32,
    body: Span,
)
    requires
        offset_of(document.bytes(), selection.start) == Some(offset),
        cursor_on(document.calls(), offset, k),
        repeats_music(document.calls()[k], kind, count, body),
        never_called(document, "alternative"@),
        document.bytes().len() <= usize::MAX,
        body.start < body.end,
        can_cut(document.text@, body.start as int, body.end as int),
        repeat_selected(document, selection) is Some,
    ensures
        ({
            let found = repeat_selected(document, selection)->0;
            let text = cut_of(document.text@, body.start as int, body.end as int);
            &&& found.start == document.calls()[k].keyword.start
            &&& found.count == count
            &&& found.count >= 1
            &&& found.body == body
            &&& found.end == body.end
            &&& found.alternative is None
            &&& !starts_block(text) ==> found.repeated == body
            &&& forall|music: Seq<char>|
                #[trigger] is_block_text(text, music) && !all_white(music) ==> is_trimmed(
                    music,
                    cut_of(
                        document.text@,
                        found.repeated.start as int,
                        found.repeated.end as int,
                    ),
                )
        }),
{
    let calls = document.calls();
    lemma_found(document, selection, offset, k, kind, count, body);
    lemma_simple(calls[k], kind, count, body);
    lemma_no_alternative(document, body);
    let text = cut_of(document.text@, body.start as int, body.end as int);
    lemma_opens(document.text@, body);
    lemma_first_bytes(document.text@, body.start as int, body.end as int);
    assert forall|music: Seq<char>| #[trigger] is_block_text(text, music) && !all_white(
        music,
    ) implies is_trimmed(
        music,
        cut_of(
            document.text@,
            repeat_selected(document, selection)->0.repeated.start as int,
            repeat_selected(document, selection)->0.repeated.end as int,
        ),
    ) by {
        lemma_block_inside(document.text@, body, music);
        lemma_block_trimmed(document.text@, body, music);
    }
}

proof fn lemma_no_alternative(document: Document, body: Span)
    requires
        never_called(document, "alternative"@),
    ensures
        alternative_of(document, body) is None,
{
    let calls = document.calls();
    assert(calls.len() == document.notes.commands.calls.len());
    let within = alternative_in(calls, body.start as int, body.end as int);
    let after = alternative_after(document.text@, calls, body.end as int);
    lemma_first_from(0, calls.len() as int, within);
    lemma_first_from(0, calls.len() as int, after);
    match first_from(0, calls.len() as int, within) {
        Some(j) => {
            assert(within(j as int));
            assert(calls[j as int].name@ != "alternative"@);
        },
        None => {},
    }
    match first_from(0, calls.len() as int, after) {
        Some(j) => {
            assert(after(j as int));
            assert(calls[j as int].name@ != "alternative"@);
        },
        None => {},
    }
}

/// A text so many times over, with something between each two.
pub open spec fn times(text: Seq<char>, between: Seq<char>, n: int) -> Seq<char>
    decreases n,
{
    if n <= 0 {
        Seq::empty()
    } else if n == 1 {
        text
    } else {
        times(text, between, n - 1) + between + text
    }
}

/// Whether the music inside a span says everything: no event of it leaves its duration out, and none
/// is relative.
pub open spec fn says_everything(document: Document, span: Span) -> bool {
    forall|j: int|
        0 <= j < document.events().len() && span.start <= (
        #[trigger] document.events()[j]).span.start && document.events()[j].span.end <= span.end
            ==> document.events()[j].duration_written && document.events()[j].relative is None
}

proof fn lemma_joined_copies(document: Document, repeat: Repeat, between: Seq<char>, n: int)
    requires
        0 <= n,
        trimmed(
            cut_of(
                document.text@,
                repeat.repeated.start as int,
                repeat.repeated.end as int,
            ),
        ).len() > 0,
    ensures
        ({
            let text = trimmed(
                cut_of(
                    document.text@,
                    repeat.repeated.start as int,
                    repeat.repeated.end as int,
                ),
            );
            joined(copies(document, repeat, n), between) == times(text, between, n)
        }),
    decreases n,
{
    let text = trimmed(
        cut_of(document.text@, repeat.repeated.start as int, repeat.repeated.end as int),
    );
    if n > 0 {
        lemma_joined_copies(document, repeat, between, n - 1);
        assert(copies(document, repeat, n).drop_last() =~= copies(document, repeat, n - 1));
        assert(copies(document, repeat, n).last() == text);
        if n == 1 {
            assert(joined(copies(document, repeat, 0), between) =~= Seq::empty());
        } else {
            lemma_times_some(text, between, n - 1);
        }
    }
}

proof fn lemma_times_some(text: Seq<char>, between: Seq<char>, n: int)
    requires
        text.len() > 0,
        n > 0,
    ensures
        times(text, between, n).len() > 0,
    decreases n,
{
    if n > 1 {
        lemma_times_some(text, between, n - 1);
    }
}

/// Text without white space at its ends is its own trimming.
proof fn lemma_tight_trimmed(text: Seq<char>)
    requires
        tight(text),
    ensures
        trimmed(text) == text,
{
    let none = Seq::<char>::empty();
    lemma_trimmed(none, text, none);
    assert(none + text + none =~= text);
}

/// Whether a line is indented by `indent`: the white space at its start.
pub open spec fn is_indent(line: Seq<char>, indent: Seq<char>) -> bool {
    &&& indent.len() <= line.len()
    &&& line.subrange(0, indent.len() as int) == indent
    &&& all_white(indent)
    &&& indent.len() < line.len() ==> !white(line[indent.len() as int])
}

/// Whether `between` goes between two copies of the music of a repeat: a space where the body stands on
/// one line, otherwise a line break and what the line with the repeat, which starts at `line`, is
/// indented by.
pub open spec fn goes_between(
    document: Document,
    body: Span,
    start: int,
    line: int,
    between: Seq<char>,
) -> bool {
    if cut_of(document.text@, body.start as int, body.end as int).contains('\n') {
        &&& start <= document.bytes().len()
        &&& starts_line_of(document.bytes(), line, start)
        &&& between.len() > 0
        &&& between[0] == '\n'
        &&& is_indent(
            cut_of(document.text@, line, start),
            between.subrange(1, between.len() as int),
        )
    } else {
        between == seq![' ']
    }
}

proof fn lemma_line(bytes: Seq<u8>, line: int, at: int)
    requires
        starts_line_of(bytes, line, at),
        at <= bytes.len(),
    ensures
        line_start(bytes, at) == line,
    decreases at - line,
{
    if line < at {
        assert(bytes[at - 1] != '\n' as u32);
        lemma_line(bytes, line, at - 1);
    }
}

proof fn lemma_indent(line: Seq<char>, indent: Seq<char>, k: int)
    requires
        is_indent(line, indent),
        0 <= k <= indent.len(),
    ensures
        leading_white(line.subrange(k, line.len() as int)) == indent.len() - k,
    decreases indent.len() - k,
{
    let rest = line.subrange(k, line.len() as int);
    if k < indent.len() {
        assert(rest[0] == line.subrange(0, indent.len() as int)[k]);
        assert(white(indent[k]));
        assert(rest.drop_first() =~= line.subrange(k + 1, line.len() as int));
        lemma_indent(line, indent, k + 1);
    }
}

proof fn lemma_between(document: Document, repeat: Repeat, line: int, between: Seq<char>)
    requires
        goes_between(document, repeat.body, repeat.start as int, line, between),
    ensures
        separator_for(document.text@, repeat) == between,
{
    reveal_strlit("\n");
    reveal_strlit(" ");
    assert("\n"@ =~= seq!['\n']);
    assert(" "@ =~= seq![' ']);
    let src = document.text@;
    if cut_of(src, repeat.body.start as int, repeat.body.end as int).contains('\n') {
        lemma_line(document.bytes(), line, repeat.start as int);
        let text = cut_of(src, line, repeat.start as int);
        let indent = between.subrange(1, between.len() as int);
        lemma_indent(text, indent, 0);
        assert(text.subrange(0, text.len() as int) =~= text);
        assert(between =~= seq!['\n'] + indent);
    }
}

/// A repeat of music that says everything becomes that music, as many times as the repeat counts: with
/// a space between each two where the body stands on one line, and otherwise a line break with the
/// indentation of the repeat. It goes in place of the whole repeat, and in braces of its own where it
/// sits in no block.
pub proof fn law_a_repeat_becomes_its_music_so_many_times(
    document: Document,
    selection: Range,
    offset: int,
    k: int,
    kind: Seq<char>,
    count: u32,
    body: Span,
    music: Seq<char>,
    line: int,
    between: Seq<char>,
)
    requires
        offset_of(document.bytes(), selection.start) == Some(offset),
        cursor_on(document.calls(), offset, k),
        repeats_music(document.calls()[k], kind, count, body),
        never_called(document, "alternative"@),
        never_called(document, "volta"@),
        document.bytes().len() <= usize::MAX,
        body.start < body.end,
        can_cut(document.text@, body.start as int, body.end as int),
        repeat_selected(document, selection) is Some,
        says_everything(document, body),
        goes_between(
            document,
            body,
            document.calls()[k].keyword.start as int,
            line,
            between,
        ),
        ({
            let text = cut_of(document.text@, body.start as int, body.end as int);
            ||| !starts_block(text) && tight(text) && music == text
            ||| exists|inner: Seq<char>|
                #[trigger] is_block_text(text, inner) && is_trimmed(inner, music)
        }),
    ensures
        InlineRepeats::outcome(document, selection) is Some,
        ({
            let edits = InlineRepeats::outcome(document, selection)->0.edits;
            let found = repeat_selected(document, selection)->0;
            &&& edits.len() > 0
            &&& edits[0].range == range_between(
                document.bytes(),
                Span { start: document.calls()[k].keyword.start, end: body.end },
            )
            &&& edits[0].new_text == match found.block {
                Some(_) => times(music, between, count as int),
                None => seq!['{', ' '] + times(music, between, count as int) + seq![' ', '}'],
            }
        }),
{
    law_the_music_of_a_repeat_is_its_body(document, selection, offset, k, kind, count, body);
    let found = repeat_selected(document, selection)->0;
    let src = document.text@;
    let text = cut_of(src, body.start as int, body.end as int);
    let repeated = cut_of(src, found.repeated.start as int, found.repeated.end as int);
    if !starts_block(text) && tight(text) && music == text {
        assert(repeated == music);
    } else {
        let inner = choose|inner: Seq<char>|
            #[trigger] is_block_text(text, inner) && is_trimmed(inner, music);
        let (a, b) = choose|a: Seq<char>, b: Seq<char>|
            #[trigger] all_white(a) && #[trigger] all_white(b) && inner == a + music + b;
        if all_white(inner) {
            assert(crate::text::white(inner[a.len() as int]));
            assert(inner[a.len() as int] == music[0]);
        }
        assert(is_trimmed(inner, repeated));
        let (c, d) = choose|c: Seq<char>, d: Seq<char>|
            #[trigger] all_white(c) && #[trigger] all_white(d) && inner == c + repeated + d;
        lemma_trimmed(a, music, b);
        lemma_trimmed(c, repeated, d);
    }
    assert(tight(music) && repeated == music);
    lemma_tight_trimmed(music);
    let events = document.events();
    let calls = document.calls();
    assert(events.len() == document.notes.events.len());
    assert(calls.len() == document.notes.commands.calls.len());
    let at = kept(events.len() as int, event_in(events, found.repeated));
    lemma_kept(events.len() as int, event_in(events, found.repeated));
    lemma_repeated_inside(document, body, found, music);
    assert forall|j: int| 0 <= j < at.len() implies events[(
    #[trigger] at[j]) as int].duration_written && events[at[j] as int].relative is None by {
        assert(event_in(events, found.repeated)(at[j] as int));
    }
    let fits = volta_in(calls, found.repeated.start as int, found.repeated.end as int);
    let voltas = kept(calls.len() as int, fits);
    lemma_kept(calls.len() as int, fits);
    if voltas.len() > 0 {
        assert(fits(voltas[0] as int));
        assert(calls[voltas[0] as int].name@ != "volta"@);
    }
    if at.len() > 0 {
        assert(events[at[0] as int].relative is None);
    }
    law_explicit_music_unfolds_into_copies(document, found, seed(events, at), count as int);
    lemma_between(document, found, line, between);
    lemma_joined_copies(document, found, between, count as int);
    reveal_strlit("{ ");
    reveal_strlit(" }");
    assert("{ "@ =~= seq!['{', ' ']);
    assert(" }"@ =~= seq![' ', '}']);
}

/// The music of a repeat lies inside its body.
proof fn lemma_repeated_inside(document: Document, body: Span, repeat: Repeat, music: Seq<char>)
    requires
        document.bytes().len() <= usize::MAX,
        can_cut(document.text@, body.start as int, body.end as int),
        body.start < body.end,
        repeat.repeated == body || trimmed_inside(document.text@, body) == Some(repeat.repeated),
        tight(music),
        cut_of(document.text@, repeat.repeated.start as int, repeat.repeated.end as int) == music,
    ensures
        body.start <= repeat.repeated.start,
        repeat.repeated.end <= body.end,
{
    let src = document.text@;
    if repeat.repeated != body {
        match inside(encode_utf8(src), body) {
            Some(inner) => {
                let raw = cut_of(src, inner.start as int, inner.end as int);
                lemma_trim_bytes(raw);
                let found = repeat.repeated;
                lemma_piece_bytes(src, found.start as int, found.end as int);
            },
            None => {},
        }
    }
}

proof fn lemma_trim_bytes(raw: Seq<char>)
    ensures
        encode_utf8(trimmed_start(raw)).len() <= encode_utf8(raw).len(),
        encode_utf8(trimmed_end(raw)).len() <= encode_utf8(raw).len(),
{
    lemma_white_ends(raw);
    let n = leading_white(raw) as int;
    let m = raw.len() - trailing_white(raw);
    lemma_encode_concat(raw.subrange(0, n), trimmed_start(raw));
    assert(raw =~= raw.subrange(0, n) + trimmed_start(raw));
    lemma_encode_concat(trimmed_end(raw), raw.subrange(m, raw.len() as int));
    assert(raw =~= trimmed_end(raw) + raw.subrange(m, raw.len() as int));
}

} // verus!
