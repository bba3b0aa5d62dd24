//! Arguments: what a command reads of the nodes behind it.
use vstd::prelude::*;
use crate::command::{Arg, ArgKind, ArgView, Param, arg_view};
use crate::command::calls::fits_kind;
use crate::command::reader::{
    RunView, adjacent, argument_at, arguments_at, digits_value, first_named, marks_from,
    more_numbers, number_of, words_among,
};
use crate::line_struct::Span;
use crate::note_names::note_among;
use crate::notes::Pitch;
use crate::syntax::{Node, children_of};
use crate::text::cut_of;

verus! {

/// Whether a text is a number without a sign.
pub open spec fn is_digits(text: Seq<char>) -> bool {
    text.len() > 0 && forall|k: int| 0 <= k < text.len() ==> '0' <= #[trigger] text[k] && text[k] <= '9'
}

proof fn lemma_digits(text: Seq<char>)
    requires
        forall|k: int| 0 <= k < text.len() ==> '0' <= #[trigger] text[k] && text[k] <= '9',
    ensures
        digits_value(text) is Some,
    decreases text.len(),
{
    if text.len() > 0 {
        let rest = text.drop_last();
        assert forall|k: int| 0 <= k < rest.len() implies '0' <= #[trigger] rest[k] && rest[k]
            <= '9' by {
            assert(rest[k] == text[k]);
        }
        assert('0' <= text[text.len() - 1]);
        lemma_digits(rest);
    }
}

/// A digit counts what it says, and one more digit behind a number makes ten times as much of it and
/// adds its own; a number too large to hold is none. A plus sign changes nothing.
pub proof fn law_numbers_are_decimal(text: Seq<char>, digit: char)
    requires
        '0' <= digit,
        digit <= '9',
    ensures
        number_of(seq![digit]) == Some((digit as u32 - '0' as u32) as u32),
        is_digits(text) && number_of(text) is Some ==> {
            let more = 10 * number_of(text)->0 + (digit as u32 - '0' as u32);
            number_of(text.push(digit)) == if more <= u32::MAX {
                Some(more as u32)
            } else {
                None
            }
        },
        is_digits(text) ==> number_of(seq!['+'] + text) == number_of(text),
        number_of(Seq::empty()) is None,
{
    let one = seq![digit];
    assert(one.drop_last() =~= Seq::empty());
    assert(digits_value(Seq::<char>::empty()) == Some(0nat));
    assert(one.last() == digit);
    if is_digits(text) {
        assert('0' <= text[0]);
        let more = text.push(digit);
        assert(more.drop_last() =~= text);
        assert(more.last() == digit);
        assert(more[0] == text[0]);
        lemma_digits(text);
        let signed = seq!['+'] + text;
        assert(signed[0] == '+');
        assert(signed.drop_first() =~= text);
    }
}

/// How far octave marks raise a note: up with each `'`, down with each `,`; the marks that only show
/// an accidental once more do neither.
pub open spec fn raised(marks: Seq<char>) -> int
    decreases marks.len(),
{
    if marks.len() == 0 {
        0
    } else {
        raised(marks.drop_last()) + if marks.last() == '\'' {
            1int
        } else if marks.last() == ',' {
            -1
        } else {
            0
        }
    }
}

/// Whether the nodes of a run from `k` on are marks, each of one character, and the next is none of
/// those in `all`.
pub open spec fn marks_at(run: RunView, k: int, marks: Seq<char>, all: Seq<char>) -> bool {
    &&& 0 <= k
    &&& forall|j: int| 0 <= j < marks.len() ==> #[trigger] is_punctuation(run, k + j, marks[j])
    &&& forall|j: int| 0 <= j < marks.len() ==> all.contains(#[trigger] marks[j])
    &&& forall|j: int|
        0 <= j < all.len() ==> !is_punctuation(run, k + marks.len(), #[trigger] all[j])
}

/// Whether the node at `k` of a run is one character of punctuation.
pub open spec fn is_punctuation(run: RunView, k: int, c: char) -> bool {
    &&& 0 <= k < run.children.len()
    &&& run.nodes[run.children[k] as int].kind@ == "punctuation"@
    &&& cut_of(
        run.src,
        run.nodes[run.children[k] as int].start as int,
        run.nodes[run.children[k] as int].end as int,
    ) == seq![c]
}

pub proof fn lemma_marks()
    ensures
        "'"@ == seq!['\''],
        ","@ == seq![','],
        "!"@ == seq!['!'],
        "?"@ == seq!['?'],
        "="@ == seq!['='],
        forall|a: char, b: char| a != b ==> #[trigger] seq![a] != #[trigger] seq![b],
{
    reveal_strlit("'");
    reveal_strlit(",");
    reveal_strlit("!");
    reveal_strlit("?");
    reveal_strlit("=");
    assert("'"@ =~= seq!['\'']);
    assert(","@ =~= seq![',']);
    assert("!"@ =~= seq!['!']);
    assert("?"@ =~= seq!['?']);
    assert("="@ =~= seq!['=']);
    assert forall|a: char, b: char| a != b implies #[trigger] seq![a] != #[trigger] seq![b] by {
        assert(seq![a][0] == a && seq![b][0] == b);
    }
}

/// The marks that a note can carry behind its name.
pub open spec fn note_marks() -> Seq<char> {
    seq!['\'', ',', '!', '?']
}

/// The marks that an octave check can carry.
pub open spec fn check_marks() -> Seq<char> {
    seq!['\'', ',']
}

proof fn lemma_marks_from(run: RunView, k: int, marks: Seq<char>, reminders: bool)
    requires
        marks_at(
            run,
            k,
            marks,
            if reminders {
                note_marks()
            } else {
                check_marks()
            },
        ),
    ensures
        marks_from(run, k, reminders) == (raised(marks), k + marks.len()),
    decreases marks.len(),
{
    lemma_marks();
    let all = if reminders {
        note_marks()
    } else {
        check_marks()
    };
    assert(all[0] == '\'' && all[1] == ',');
    if reminders {
        assert(all[2] == '!' && all[3] == '?');
    }
    if marks.len() == 0 {
        assert(!is_punctuation(run, k + 0, all[0]));
        assert(!is_punctuation(run, k + 0, all[1]));
        if reminders {
            assert(!is_punctuation(run, k + 0, all[2]));
            assert(!is_punctuation(run, k + 0, all[3]));
        }
    } else {
        let rest = marks.drop_first();
        assert(is_punctuation(run, k + 0, marks[0]));
        assert(all.contains(marks[0]));
        assert forall|j: int| 0 <= j < rest.len() implies #[trigger] is_punctuation(
            run,
            k + 1 + j,
            rest[j],
        ) by {
            assert(is_punctuation(run, k + (j + 1), marks[j + 1]));
        }
        assert forall|j: int| 0 <= j < rest.len() implies all.contains(#[trigger] rest[j]) by {
            assert(all.contains(marks[j + 1]));
        }
        assert forall|j: int| 0 <= j < all.len() implies !is_punctuation(
            run,
            k + 1 + rest.len(),
            #[trigger] all[j],
        ) by {
            assert(!is_punctuation(run, k + marks.len(), all[j]));
        }
        lemma_marks_from(run, k + 1, rest, reminders);
        lemma_raised(marks);
        let c = marks[0];
        let m = choose|m: int| 0 <= m < all.len() && all[m] == c;
        assert(c == '\'' || c == ',' || (reminders && (c == '!' || c == '?')));
    }
}

proof fn lemma_raised(marks: Seq<char>)
    requires
        marks.len() > 0,
    ensures
        raised(marks) == raised(marks.drop_first()) + if marks[0] == '\'' {
            1int
        } else if marks[0] == ',' {
            -1
        } else {
            0
        },
    decreases marks.len(),
{
    let rest = marks.drop_first();
    if marks.len() > 1 {
        lemma_raised(marks.drop_last());
        assert(marks.drop_last().drop_first() =~= rest.drop_last());
        assert(rest.last() == marks.last());
        assert(marks.drop_last()[0] == marks[0]);
    } else {
        assert(marks.drop_last() =~= Seq::empty());
        assert(rest =~= Seq::empty());
        assert(raised(Seq::<char>::empty()) == 0);
    }
}

/// A pitch is a word that the language has for a note, in the octave below middle C, raised and lowered
/// by its octave marks. An octave check settles the octave by the marks behind its sign alone.
#[verifier::rlimit(40)]
pub proof fn law_a_pitch_is_a_note_with_its_marks(
    run: RunView,
    i: int,
    note_name: u8,
    alteration: i8,
    marks: Seq<char>,
    checked: Seq<char>,
)
    requires
        0 <= i < run.children.len(),
        run.nodes[run.children[i] as int].kind@ == "symbol"@,
        note_among(
            run.notes,
            cut_of(
                run.src,
                run.nodes[run.children[i] as int].start as int,
                run.nodes[run.children[i] as int].end as int,
            ),
        ) == Some((note_name, alteration)),
        marks_at(run, i + 1, marks, note_marks()),
        -1000 < raised(marks) < 1000,
        -1000 < raised(checked) < 1000,
    ensures
        ({
            let behind = i + 1 + marks.len();
            let start = run.nodes[run.children[i] as int].start;
            let read = argument_at(ArgKind::Pitch, run, i);
            &&& !is_punctuation(run, behind, '=') ==> read == Some(
                (
                    ArgView::Pitch {
                        span: Span {
                            start,
                            end: run.nodes[run.children[behind - 1] as int].end,
                        },
                        pitch: Pitch { note_name, alteration, octave: (raised(marks) - 1) as i32 },
                    },
                    behind,
                ),
            )
            &&& is_punctuation(run, behind, '=') && marks_at(
                run,
                behind + 1,
                checked,
                check_marks(),
            ) ==> read == Some(
                (
                    ArgView::Pitch {
                        span: Span {
                            start,
                            end: run.nodes[run.children[behind + checked.len()] as int].end,
                        },
                        pitch: Pitch {
                            note_name,
                            alteration,
                            octave: (raised(checked) - 1) as i32,
                        },
                    },
                    behind + 1 + checked.len(),
                ),
            )
        }),
{
    lemma_marks();
    lemma_marks_from(run, i + 1, marks, true);
    let behind = i + 1 + marks.len();
    if is_punctuation(run, behind, '=') && marks_at(run, behind + 1, checked, check_marks()) {
        lemma_marks_from(run, behind + 1, checked, false);
    }
}

/// Whether the nodes of a run from `i` up to `next` stand right behind one another, and what follows
/// does not.
pub open spec fn stands_together(run: RunView, i: int, next: int) -> bool {
    &&& 0 <= i < next <= run.children.len()
    &&& forall|k: int|
        i < k < next ==> run.nodes[(#[trigger] run.children[k]) as int].start == run.nodes[
        run.children[k - 1] as int].end
    &&& next < run.children.len() ==> run.nodes[run.children[next] as int].start != run.nodes[
    run.children[next - 1] as int].end
}

proof fn lemma_adjacent(run: RunView, i: int, k: int, next: int)
    requires
        stands_together(run, i, next),
        i < k <= next,
    ensures
        adjacent(run, k, run.nodes[run.children[k - 1] as int].end) == (
            next,
            run.nodes[run.children[next - 1] as int].end,
        ),
    decreases next - k,
{
    if k < next {
        assert(run.nodes[run.children[k] as int].start == run.nodes[run.children[k - 1] as int].end);
        lemma_adjacent(run, i, k + 1, next);
    }
}

/// Music is a block, or a note or chord together with everything that stands right behind it: its
/// duration, its octave marks and what is attached to it.
pub proof fn law_music_is_a_block_or_a_note_with_what_belongs_to_it(run: RunView, i: int, next: int)
    requires
        stands_together(run, i, next),
    ensures
        ({
            let node = run.nodes[run.children[i] as int];
            let read = argument_at(ArgKind::Music, run, i);
            let block = node.kind@ == "expression_block"@ || node.kind@ == "parallel_music"@;
            let note = node.kind@ == "symbol"@ || node.kind@ == "chord"@;
            &&& block ==> read == Some(
                (ArgView::Music { span: Span { start: node.start, end: node.end } }, i + 1),
            )
            &&& note ==> read == Some(
                (
                    ArgView::Music {
                        span: Span {
                            start: node.start,
                            end: run.nodes[run.children[next - 1] as int].end,
                        },
                    },
                    next,
                ),
            )
            &&& !block && !note ==> read is None
        }),
{
    reveal_strlit("expression_block");
    reveal_strlit("parallel_music");
    reveal_strlit("symbol");
    reveal_strlit("chord");
    assert("expression_block"@.len() == 16);
    assert("parallel_music"@.len() == 14);
    assert("symbol"@.len() == 6);
    assert("chord"@.len() == 5);
    lemma_adjacent(run, i, i + 1, next);
}

/// Whether the nodes of a run from `i` on are `n` numbers with commas between, and no more of them.
pub open spec fn numbers_at(run: RunView, i: int, n: int) -> bool {
    &&& 0 <= i
    &&& n > 0
    &&& forall|k: int| 0 <= k < n ==> #[trigger] is_number(run, i + 2 * k)
    &&& forall|k: int| 0 < k < n ==> #[trigger] is_punctuation(run, i + 2 * k - 1, ',')
    &&& !(is_punctuation(run, i + 2 * n - 1, ',') && is_number(run, i + 2 * n))
}

/// Whether the node at `k` of a run is a number.
pub open spec fn is_number(run: RunView, k: int) -> bool {
    0 <= k < run.children.len() && run.nodes[run.children[k] as int].kind@ == "unsigned_integer"@
}

/// What the number at `k` of a run counts.
pub open spec fn value_at(run: RunView, k: int) -> u32 {
    let node = run.nodes[run.children[k] as int];
    match number_of(cut_of(run.src, node.start as int, node.end as int)) {
        Some(value) => value,
        None => 0,
    }
}

proof fn lemma_more_numbers(run: RunView, i: int, n: int, k: int)
    requires
        numbers_at(run, i, n),
        0 < k <= n,
    ensures
        ({
            let (values, end, next) = more_numbers(
                run,
                i + 2 * k - 1,
                run.nodes[run.children[i + 2 * (k - 1)] as int].end,
            );
            &&& values.len() == n - k
            &&& forall|j: int| 0 <= j < values.len() ==> #[trigger] values[j] == value_at(run, i + 2 * (
            k + j))
            &&& end == run.nodes[run.children[i + 2 * (n - 1)] as int].end
            &&& next == i + 2 * n - 1
        }),
    decreases n - k,
{
    lemma_marks();
    if k < n {
        assert(is_punctuation(run, i + 2 * k - 1, ','));
        assert(is_number(run, i + 2 * k));
        lemma_more_numbers(run, i, n, k + 1);
        let (values, end, next) = more_numbers(
            run,
            i + 2 * k - 1,
            run.nodes[run.children[i + 2 * (k - 1)] as int].end,
        );
        let (rest, _, _) = more_numbers(
            run,
            i + 2 * (k + 1) - 1,
            run.nodes[run.children[i + 2 * k] as int].end,
        );
        assert(values =~= seq![value_at(run, i + 2 * k)] + rest);
        assert forall|j: int| 0 <= j < values.len() implies #[trigger] values[j] == value_at(
            run,
            i + 2 * (k + j),
        ) by {
            if j > 0 {
                assert(values[j] == rest[j - 1]);
                assert(rest[j - 1] == value_at(run, i + 2 * (k + 1 + (j - 1))));
            }
        }
    }
}

/// A list of numbers is all of the numbers that commas join, in order, and nothing behind them.
pub proof fn law_a_list_holds_all_its_numbers(run: RunView, i: int, n: int, k: int)
    requires
        numbers_at(run, i, n),
        0 <= k < n,
    ensures
        ({
            let read = argument_at(ArgKind::NumberList, run, i);
            &&& read is Some
            &&& read_to(read) == i + 2 * n - 1
            &&& read_arg(read) is NumberList
            &&& list_of(read_arg(read)).len() == n
            &&& list_of(read_arg(read))[k] == value_at(run, i + 2 * k)
        }),
{
    assert(is_number(run, i + 2 * 0));
    lemma_more_numbers(run, i, n, 1);
    let (values, _, _) = more_numbers(run, i + 1, run.nodes[run.children[i] as int].end);
    if k > 0 {
        assert(values[k - 1] == value_at(run, i + 2 * (1 + (k - 1))));
    }
}

/// The argument that was read.
pub open spec fn read_arg(read: Option<(ArgView, int)>) -> ArgView {
    match read {
        Some((arg, _)) => arg,
        None => ArgView::Unknown { span: Span { start: 0, end: 0 } },
    }
}

/// Where reading goes on.
pub open spec fn read_to(read: Option<(ArgView, int)>) -> int {
    match read {
        Some((_, next)) => next,
        None => 0,
    }
}

/// The numbers of a list.
pub open spec fn list_of(arg: ArgView) -> Seq<u32> {
    match arg {
        ArgView::NumberList { values, .. } => values,
        _ => Seq::empty(),
    }
}

/// Whether a kind of node is one that some parameters read by its shape: music, a chord, a word or a
/// fraction.
pub open spec fn has_shape(kind: Seq<char>) -> bool {
    kind == "expression_block"@ || kind == "parallel_music"@ || kind == "symbol"@ || kind
        == "chord"@ || kind == "fraction"@
}

/// Which single nodes are read as what: words and context types are symbols, counts are numbers,
/// escaped words lose their backslash, a string may be a bare word, a fixed token is that punctuation,
/// and a parameter of unknown shape takes anything that has none of the shapes that others read. Each
/// covers its node, and reading goes on with the next.
#[verifier::rlimit(40)]
pub proof fn law_one_node_is_read_by_its_kind(run: RunView, i: int, kind: ArgKind)
    requires
        0 <= i < run.children.len(),
    ensures
        ({
            let node = run.nodes[run.children[i] as int];
            let span = Span { start: node.start, end: node.end };
            let text = cut_of(run.src, node.start as int, node.end as int);
            let read = argument_at(kind, run, i);
            &&& kind is BareWord ==> read == if node.kind@ == "symbol"@ {
                Some((ArgView::BareWord { span, text }, i + 1))
            } else {
                None
            }
            &&& kind is ContextType ==> read == if node.kind@ == "symbol"@ {
                Some((ArgView::ContextType { span, name: text }, i + 1))
            } else {
                None
            }
            &&& kind is Count ==> read == if node.kind@ == "unsigned_integer"@ {
                Some((ArgView::Count { span, value: value_at(run, i) }, i + 1))
            } else {
                None
            }
            &&& kind is Fraction ==> read == if node.kind@ == "fraction"@ {
                Some((ArgView::Fraction { span }, i + 1))
            } else {
                None
            }
            &&& kind is Word ==> (read is Some <==> node.kind@ == "escaped_word"@)
            &&& kind is Word && read is Some && text.len() > 0 && text[0] == '\\' ==> read == Some(
                (ArgView::Word { span, text: text.subrange(1, text.len() as int) }, i + 1),
            )
            &&& kind is Word && read is Some && text.len() > 0 && text[0] != '\\' ==> read == Some(
                (ArgView::Word { span, text }, i + 1),
            )
            &&& kind is String && node.kind@ == "symbol"@ ==> read == Some(
                (ArgView::String { span, text }, i + 1),
            )
            &&& kind is ContextName && node.kind@ == "symbol"@ ==> read == Some(
                (ArgView::ContextName { span, name: text }, i + 1),
            )
            &&& (kind is String || kind is ContextName) && node.kind@ != "symbol"@ && node.kind@
                != "string"@ ==> read is None
            &&& (kind is String || kind is ContextName) && node.kind@ == "string"@ ==> read is Some
                && read_to(read) == i + 1
            &&& kind is Unknown ==> read == if has_shape(node.kind@) {
                None
            } else {
                Some((ArgView::Unknown { span }, i + 1))
            }
            &&& kind is Literal && node.kind@ == "punctuation"@ && text == kind->Literal_0@
                ==> read == Some((ArgView::Literal { span }, i + 1))
            &&& kind is Literal && (node.kind@ != "punctuation"@ || text != kind->Literal_0@)
                ==> read is None
        }),
{
    reveal_strlit("symbol");
    reveal_strlit("string");
    assert("symbol"@.len() == 6 && "symbol"@[1] == 'y');
    assert("string"@.len() == 6 && "string"@[1] == 't');
    let node = run.nodes[run.children[i] as int];
    let text = cut_of(run.src, node.start as int, node.end as int);
    if text.len() > 0 {
        assert(text.drop_first() =~= text.subrange(1, text.len() as int));
    }
}

/// Whether node `c` is the first child of node `i` that is a piece of a string.
pub open spec fn first_piece(nodes: Seq<Node>, i: int, c: int) -> bool {
    let row = children_of(nodes, i);
    exists|k: int|
        {
            &&& 0 <= k < row.len()
            &&& #[trigger] row[k] == c
            &&& is_piece(nodes[c])
            &&& forall|j: int| 0 <= j < k ==> !is_piece(nodes[(#[trigger] row[j]) as int])
        }
}

/// Whether a node is a piece of a string.
pub open spec fn is_piece(node: Node) -> bool {
    node.named && node.kind@ == "string_fragment"@
}

proof fn lemma_first_piece(nodes: Seq<Node>, row: Seq<usize>, k: int)
    requires
        0 <= k < row.len(),
        is_piece(nodes[row[k] as int]),
        forall|j: int| 0 <= j < k ==> !is_piece(nodes[(#[trigger] row[j]) as int]),
    ensures
        first_named(nodes, row, "string_fragment"@) == Some(row[k]),
    decreases k,
{
    if k > 0 {
        let rest = row.drop_first();
        assert(!is_piece(nodes[row[0] as int]));
        assert(rest[k - 1] == row[k]);
        assert forall|j: int| 0 <= j < k - 1 implies !is_piece(
            nodes[(#[trigger] rest[j]) as int],
        ) by {
            assert(!is_piece(nodes[row[j + 1] as int]));
        }
        lemma_first_piece(nodes, rest, k - 1);
    }
}

proof fn lemma_no_piece(nodes: Seq<Node>, row: Seq<usize>)
    requires
        forall|j: int| 0 <= j < row.len() ==> !is_piece(nodes[(#[trigger] row[j]) as int]),
    ensures
        first_named(nodes, row, "string_fragment"@) is None,
    decreases row.len(),
{
    if row.len() > 0 {
        let rest = row.drop_first();
        assert(!is_piece(nodes[row[0] as int]));
        assert forall|j: int| 0 <= j < rest.len() implies !is_piece(
            nodes[(#[trigger] rest[j]) as int],
        ) by {
            assert(!is_piece(nodes[row[j + 1] as int]));
        }
        lemma_no_piece(nodes, rest);
    }
}

/// A quoted string says what its first piece does, its quotes left out; an empty one says nothing.
pub proof fn law_a_string_is_read_without_its_quotes(run: RunView, i: int, c: int)
    requires
        0 <= i < run.children.len(),
        run.nodes[run.children[i] as int].kind@ == "string"@,
    ensures
        ({
            let node = run.nodes[run.children[i] as int];
            let span = Span { start: node.start, end: node.end };
            let row = children_of(run.nodes, run.children[i] as int);
            let part = cut_of(run.src, run.nodes[c].start as int, run.nodes[c].end as int);
            &&& first_piece(run.nodes, run.children[i] as int, c) ==> argument_at(
                ArgKind::String,
                run,
                i,
            ) == Some((ArgView::String { span, text: part }, i + 1)) && argument_at(
                ArgKind::ContextName,
                run,
                i,
            ) == Some((ArgView::ContextName { span, name: part }, i + 1))
            &&& (forall|j: int|
                0 <= j < row.len() ==> !is_piece(run.nodes[(#[trigger] row[j]) as int]))
                ==> argument_at(ArgKind::String, run, i) == Some(
                (ArgView::String { span, text: Seq::empty() }, i + 1),
            )
        }),
{
    let row = children_of(run.nodes, run.children[i] as int);
    if first_piece(run.nodes, run.children[i] as int, c) {
        let k = choose|k: int|
            {
                &&& 0 <= k < row.len()
                &&& #[trigger] row[k] == c
                &&& is_piece(run.nodes[c])
                &&& forall|j: int| 0 <= j < k ==> !is_piece(run.nodes[(#[trigger] row[j]) as int])
            };
        lemma_first_piece(run.nodes, row, k);
    }
    if forall|j: int| 0 <= j < row.len() ==> !is_piece(run.nodes[(#[trigger] row[j]) as int]) {
        lemma_no_piece(run.nodes, row);
    }
}

/// A parameter that may be left out is passed over where nothing fits it, and reading goes on with the
/// next one; where something must be there and is not, reading stops. What fits is read first, and
/// then the rest behind it.
pub proof fn law_optional_parameters_are_passed_over(params: Seq<Param>, run: RunView, i: int)
    requires
        params.len() > 0,
    ensures
        ({
            let rest = params.subrange(1, params.len() as int);
            let read = argument_at(params[0].kind, run, i);
            let (args, next) = arguments_at(params, run, i);
            &&& read is None && params[0].optional ==> arguments_at(params, run, i)
                == arguments_at(rest, run, i)
            &&& read is None && !params[0].optional ==> args.len() == 0 && next == i
            &&& read is Some ==> args.len() > 0 && args[0] == read_arg(read) && (
            args.subrange(1, args.len() as int), next) == arguments_at(rest, run, read_to(read))
        }),
{
    let rest = params.subrange(1, params.len() as int);
    assert(rest =~= params.drop_first());
    let (args, next) = arguments_at(params, run, i);
    let read = argument_at(params[0].kind, run, i);
    if read is Some {
        let (more, past) = arguments_at(rest, run, read_to(read));
        assert(args =~= seq![read_arg(read)] + more);
        assert(args.subrange(1, args.len() as int) =~= more);
    }
}

/// What is read for a parameter fits its kind, and of the parameters of a signature it fits only those
/// of the same shape.
pub proof fn law_an_argument_fits_the_parameter_it_was_read_for(
    run: RunView,
    i: int,
    kind: ArgKind,
    other: ArgKind,
    arg: Arg,
)
    requires
        argument_at(kind, run, i) is Some,
        arg_view(arg) == read_arg(argument_at(kind, run, i)),
    ensures
        fits_kind(arg, kind),
        fits_kind(arg, other) <==> shape_number(other) == shape_number(kind),
{
}

/// Tells the shapes of parameters apart, whatever they hold.
pub open spec fn shape_number(kind: ArgKind) -> int {
    match kind {
        ArgKind::BareWord => 0,
        ArgKind::Count => 1,
        ArgKind::NumberList => 2,
        ArgKind::Fraction => 3,
        ArgKind::Music => 4,
        ArgKind::Pitch => 5,
        ArgKind::Word => 6,
        ArgKind::String => 7,
        ArgKind::PropertyPath => 8,
        ArgKind::Unknown(_) => 9,
        ArgKind::Literal(_) => 10,
        ArgKind::Group(_) => 11,
        ArgKind::ContextType => 12,
        ArgKind::ContextName => 13,
    }
}

proof fn lemma_words_among(nodes: Seq<Node>, src: Seq<char>, row: Seq<usize>, k: int)
    requires
        0 <= k < row.len(),
        nodes[row[k] as int].kind@ == "symbol"@,
    ensures
        words_among(nodes, src, row).contains(
            cut_of(
                src,
                nodes[row[k] as int].start as int,
                nodes[row[k] as int].end as int,
            ),
        ),
    decreases row.len(),
{
    let rest = row.drop_first();
    let all = words_among(nodes, src, row);
    let more = words_among(nodes, src, rest);
    let word = cut_of(src, nodes[row[k] as int].start as int, nodes[row[k] as int].end as int);
    if k > 0 {
        assert(rest[k - 1] == row[k]);
        lemma_words_among(nodes, src, rest, k - 1);
        let i = choose|i: int| 0 <= i < more.len() && more[i] == word;
        assert(all[all.len() - more.len() + i] == word);
    } else {
        assert(all[0] == word);
    }
}

/// A property path is a word by itself, or all the words that dots join.
pub proof fn law_a_property_path_holds_all_its_words(run: RunView, i: int, k: int)
    requires
        0 <= i < run.children.len(),
    ensures
        ({
            let node = run.nodes[run.children[i] as int];
            let row = children_of(run.nodes, run.children[i] as int);
            let read = argument_at(ArgKind::PropertyPath, run, i);
            let part = run.nodes[row[k] as int];
            &&& node.kind@ == "symbol"@ ==> read is Some && path_in(read_arg(read)) == seq![
                cut_of(run.src, node.start as int, node.end as int),
            ]
            &&& node.kind@ == "property_expression"@ ==> read is Some
            &&& node.kind@ == "property_expression"@ && 0 <= k < row.len() && part.kind@
                == "symbol"@ ==> path_in(read_arg(read)).contains(
                cut_of(run.src, part.start as int, part.end as int),
            )
            &&& node.kind@ != "symbol"@ && node.kind@ != "property_expression"@ && node.kind@
                != "assignment_lhs"@ ==> read is None
        }),
{
    reveal_strlit("symbol");
    reveal_strlit("property_expression");
    reveal_strlit("assignment_lhs");
    assert("symbol"@.len() == 6);
    assert("property_expression"@.len() == 19);
    assert("assignment_lhs"@.len() == 14);
    let row = children_of(run.nodes, run.children[i] as int);
    if 0 <= k < row.len() && run.nodes[row[k] as int].kind@ == "symbol"@ {
        lemma_words_among(run.nodes, run.src, row, k);
    }
}

/// The words of a property path.
pub open spec fn path_in(arg: ArgView) -> Seq<Seq<char>> {
    match arg {
        ArgView::PropertyPath { path, .. } => path,
        _ => Seq::empty(),
    }
}

} // verus!
