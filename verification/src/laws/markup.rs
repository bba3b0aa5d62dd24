//! Texinfo: what becomes of each command of a docstring.
use vstd::prelude::*;
use crate::command::texinfo::{
    group_len, lemma_conversion_shrinks, lemma_first_place, markdown_of, word_len,
};

verus! {

/// Whether a text is made of ASCII letters and digits.
pub open spec fn is_word(text: Seq<char>) -> bool {
    forall|k: int|
        0 <= k < text.len() ==> {
            let c = #[trigger] text[k];
            ('a' <= c && c <= 'z') || ('A' <= c && c <= 'Z') || ('0' <= c && c <= '9')
        }
}

/// Whether a text goes on a word.
pub open spec fn goes_on(text: Seq<char>) -> bool {
    text.len() > 0 && is_word(seq![text[0]])
}

/// Whether a text opens no group that it does not close and closes none that it did not open, with
/// `depth` groups open before it. Behind an `@`, a brace and another `@` stand for themselves.
pub open spec fn closes_what_it_opens(text: Seq<char>, depth: nat) -> bool
    decreases text.len(),
{
    if text.len() == 0 {
        depth == 0
    } else if text.len() > 1 && text[0] == '@' && (text[1] == '@' || text[1] == '{' || text[1]
        == '}') {
        closes_what_it_opens(text.subrange(2, text.len() as int), depth)
    } else if text[0] == '{' {
        closes_what_it_opens(text.drop_first(), depth + 1)
    } else if text[0] == '}' {
        depth > 0 && closes_what_it_opens(text.drop_first(), (depth - 1) as nat)
    } else {
        // A last `@` would take the brace behind the text along.
        !(text.len() == 1 && text[0] == '@') && closes_what_it_opens(text.drop_first(), depth)
    }
}

proof fn lemma_group(head: Seq<char>, inner: Seq<char>, after: Seq<char>, depth: nat)
    requires
        closes_what_it_opens(inner, depth),
    ensures
        group_len(head + inner + seq!['}'] + after, head.len() as int, depth + 1) == Some(
            inner.len(),
        ),
    decreases inner.len(),
{
    let text = head + inner + seq!['}'] + after;
    let at = head.len() as int;
    if inner.len() == 0 {
        assert(text[at] == '}');
    } else if inner.len() > 1 && inner[0] == '@' && (inner[1] == '@' || inner[1] == '{' || inner[1]
        == '}') {
        let rest = inner.subrange(2, inner.len() as int);
        assert(text[at] == inner[0] && text[at + 1] == inner[1]);
        lemma_group(head + inner.subrange(0, 2), rest, after, depth);
        assert(head + inner.subrange(0, 2) + rest + seq!['}'] + after =~= text);
    } else {
        let rest = inner.drop_first();
        assert(text[at] == inner[0]);
        if inner.len() > 1 {
            assert(text[at + 1] == inner[1]);
        }
        let deeper: nat = if inner[0] == '{' {
            depth + 1
        } else if inner[0] == '}' {
            (depth - 1) as nat
        } else {
            depth
        };
        lemma_group(head + seq![inner[0]], rest, after, deeper);
        assert(head + seq![inner[0]] + rest + seq!['}'] + after =~= text);
    }
}

proof fn lemma_word(head: Seq<char>, word: Seq<char>, after: Seq<char>)
    requires
        is_word(word),
        !goes_on(after),
    ensures
        word_len(head + word + after, head.len() as int) == word.len(),
    decreases word.len(),
{
    let text = head + word + after;
    let at = head.len() as int;
    if word.len() == 0 {
        if after.len() > 0 {
            assert(text[at] == after[0]);
            if crate::command::texinfo::word_char(text[at]) {
                assert(is_word(seq![after[0]])) by {
                    assert(seq![after[0]][0] == after[0]);
                }
            }
        }
    } else {
        let rest = word.drop_first();
        assert(text[at] == word[0]);
        assert forall|k: int| 0 <= k < rest.len() implies {
            let c = #[trigger] rest[k];
            ('a' <= c && c <= 'z') || ('A' <= c && c <= 'Z') || ('0' <= c && c <= '9')
        } by {
            assert(rest[k] == word[k + 1]);
        }
        lemma_word(head + seq![word[0]], rest, after);
        assert(head + seq![word[0]] + rest + after =~= text);
    }
}

proof fn lemma_first_at(before: Seq<char>, behind: Seq<char>)
    requires
        !before.contains('@'),
        before.len() < usize::MAX,
    ensures
        crate::finding::first_from(
            0,
            (before + seq!['@'] + behind).len() as int,
            crate::command::texinfo::is_char(before + seq!['@'] + behind, '@'),
        ) == Some(before.len() as usize),
{
    let text = before + seq!['@'] + behind;
    let at = before.len() as int;
    assert forall|j: int| 0 <= j < at implies text[j] != '@' by {
        assert(text[j] == before[j]);
        assert(before.contains(before[j]));
    }
    assert(text[at] == '@');
    lemma_first_place(text, 0, at, '@');
}

/// What Markdown writes on both sides of what a command holds: a backquote where it is code or
/// something typed, one asterisk where it stands out, two where it stands out strongly, and nothing
/// for any other command.
pub open spec fn sides(command: Seq<char>, side: Seq<char>) -> bool {
    let typed = command == "code"@ || command == "samp"@ || command == "file"@ || command == "kbd"@
        || command == "key"@;
    let stressed = command == "var"@ || command == "emph"@ || command == "i"@;
    let strong = command == "bold"@ || command == "b"@ || command == "strong"@;
    &&& typed ==> side == seq!['`']
    &&& stressed ==> side == seq!['*']
    &&& strong ==> side == seq!['*', '*']
    &&& !typed && !stressed && !strong ==> side.len() == 0
}

/// A command with a group leaves what the group holds, converted, between the marks that stand for
/// the command; what is before and behind it is converted by itself.
#[verifier::rlimit(40)]
pub proof fn law_a_command_marks_up_its_group(
    before: Seq<char>,
    command: Seq<char>,
    inner: Seq<char>,
    after: Seq<char>,
    side: Seq<char>,
)
    requires
        !before.contains('@'),
        is_word(command),
        command.len() > 0,
        closes_what_it_opens(inner, 0),
        before.len() + command.len() + inner.len() + after.len() + 3 <= usize::MAX,
        sides(command, side),
    ensures
        markdown_of(before + seq!['@'] + command + seq!['{'] + inner + seq!['}'] + after)
            == before + side + markdown_of(inner) + side + markdown_of(after),
{
    let rest = command + seq!['{'] + inner + seq!['}'] + after;
    let text = before + seq!['@'] + rest;
    let at = before.len() as int;
    let n = text.len() as int;
    assert(before + seq!['@'] + command + seq!['{'] + inner + seq!['}'] + after =~= text);
    lemma_first_at(before, rest);
    lemma_conversion_shrinks(text);
    assert(text.subrange(0, at) =~= before);
    assert(text.subrange(at + 1, n) =~= rest);
    assert(rest[0] == command[0]);
    assert(command[0] != '@' && command[0] != '{' && command[0] != '}');
    let tail = seq!['{'] + inner + seq!['}'] + after;
    assert(tail[0] == '{');
    assert(!goes_on(tail)) by {
        if goes_on(tail) {
            assert(seq![tail[0]][0] == '{');
        }
    }
    lemma_word(Seq::empty(), command, tail);
    assert(Seq::<char>::empty() + command + tail =~= rest);
    let word = command.len() as int;
    assert(word_len(rest, 0) == word);
    lemma_group(command + seq!['{'], inner, after, 0);
    assert((command + seq!['{']) + inner + seq!['}'] + after =~= rest);
    assert(group_len(rest, word + 1, 1) == Some(inner.len()));
    assert(rest.subrange(0, word) =~= command);
    assert(rest[word] == '{');
    assert(rest.subrange(word + 1, word + 1 + inner.len()) =~= inner);
    assert(rest.subrange(word + 2 + inner.len(), rest.len() as int) =~= after);
    lemma_sides(command, side);
    assert(markdown_of(text) == before + (side + markdown_of(inner) + side) + markdown_of(after));
    assert(markdown_of(text) =~= before + side + markdown_of(inner) + side + markdown_of(after));
}

proof fn lemma_sides(command: Seq<char>, side: Seq<char>)
    requires
        sides(command, side),
    ensures
        crate::command::texinfo::markup_for(command) == side,
{
    reveal_strlit("code");
    reveal_strlit("samp");
    reveal_strlit("file");
    reveal_strlit("kbd");
    reveal_strlit("key");
    reveal_strlit("var");
    reveal_strlit("emph");
    reveal_strlit("i");
    reveal_strlit("bold");
    reveal_strlit("b");
    reveal_strlit("strong");
    reveal_strlit("`");
    reveal_strlit("*");
    reveal_strlit("**");
    reveal_strlit("");
    assert("`"@ =~= seq!['`']);
    assert("*"@ =~= seq!['*']);
    assert("**"@ =~= seq!['*', '*']);
    assert(""@ =~= Seq::<char>::empty());
    if side.len() == 0 {
        assert(side =~= Seq::<char>::empty());
    }
}

/// A command without a group leaves its word; and an `@` with nothing behind it goes.
pub proof fn law_a_command_without_a_group_is_a_word(
    before: Seq<char>,
    command: Seq<char>,
    after: Seq<char>,
)
    requires
        !before.contains('@'),
        is_word(command),
        command.len() > 0,
        !goes_on(after),
        after.len() > 0 ==> after[0] != '{',
        before.len() + command.len() + after.len() + 1 <= usize::MAX,
    ensures
        markdown_of(before + seq!['@'] + command + after) == before + command + markdown_of(after),
        markdown_of(before + seq!['@']) == before,
{
    let rest = command + after;
    let text = before + seq!['@'] + rest;
    let at = before.len() as int;
    let n = text.len() as int;
    assert(before + seq!['@'] + command + after =~= text);
    lemma_first_at(before, rest);
    lemma_conversion_shrinks(text);
    assert(text.subrange(0, at) =~= before);
    assert(text.subrange(at + 1, n) =~= rest);
    assert(rest[0] == command[0]);
    lemma_word(Seq::empty(), command, after);
    assert(Seq::<char>::empty() + command + after =~= rest);
    let word = command.len() as int;
    assert(rest.subrange(0, word) =~= command);
    assert(rest.subrange(word, rest.len() as int) =~= after);
    if after.len() > 0 {
        assert(rest[word] == after[0]);
    }
    let lone = before + seq!['@'];
    assert(lone =~= before + seq!['@'] + Seq::<char>::empty());
    lemma_first_at(before, Seq::empty());
    lemma_conversion_shrinks(lone);
    assert(lone.subrange(0, at) =~= before);
}

} // verus!
