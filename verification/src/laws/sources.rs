//! What is read out of files: references and included files, installed versions, and note names.
use vstd::prelude::*;
use vstd::utf8::*;
use crate::code_action::inverse::{lemma_trimmed, lemma_white_ends, tight};
use crate::command::reader::fragment_of;
use crate::command::scheme::{BindingView, scheme_bindings};
use crate::context::TypeView;
use crate::install::{
    bare_path, directory_of, last_component, layer_name, merged_type, name_of_path, separates,
    version_of, with_aliases,
};
use crate::line_struct::{line_starts_of, offset_of, reach, utf16_between, utf16_units};
use crate::note_names::{NoteView, dutch_contractions, dutch_note, dutch_notes};
use crate::protocol::Position;
use crate::symbols::{
    IncludeView, SymbolView, assignments, bindings_of, in_source_order, included_at, includes,
    lemma_slot, not_bound, references, slot, starts_at,
};
use crate::syntax::{Node, span_of};
use crate::text::{all_white, cut_of};
use crate::vocabulary::{lemma_line_break, line_break, word_on, words_from, words_of};

verus! {

/// Whether node `k` is a command word that calls `name`.
pub open spec fn calls(nodes: Seq<Node>, src: Seq<char>, k: int, name: Seq<char>) -> bool {
    &&& 0 <= k < nodes.len()
    &&& nodes[k].kind@ == "escaped_word"@
    &&& cut_of(src, nodes[k].start as int, nodes[k].end as int) == seq!['\\'] + name
}

proof fn lemma_include_word()
    ensures
        "\\include"@ == seq!['\\'] + "include"@,
{
    reveal_strlit("\\include");
    reveal_strlit("include");
    assert("\\include"@ =~= seq!['\\'] + "include"@);
}

/// Every command word refers to what it calls, by its name without the backslash; the word that
/// includes a file refers to nothing.
pub proof fn law_every_command_word_is_a_reference(
    nodes: Seq<Node>,
    src: Seq<char>,
    n: int,
    k: int,
    name: Seq<char>,
)
    requires
        0 <= k < n <= nodes.len(),
        calls(nodes, src, k, name),
        name != "include"@,
    ensures
        references(nodes, src, n).contains(SymbolView { name, span: span_of(nodes, k) }),
    decreases n,
{
    let before = references(nodes, src, n - 1);
    let all = references(nodes, src, n);
    let one = SymbolView { name, span: span_of(nodes, k) };
    if k < n - 1 {
        law_every_command_word_is_a_reference(nodes, src, n - 1, k, name);
        let i = choose|i: int| 0 <= i < before.len() && before[i] == one;
        assert(all[i] == one);
    } else {
        lemma_include_word();
        let text = seq!['\\'] + name;
        let other = seq!['\\'] + "include"@;
        assert(text.drop_first() =~= name);
        assert(other.drop_first() =~= "include"@);
        assert(text != other);
        assert(text[0] == '\\');
        assert(all[before.len() as int] == one);
    }
}

/// Whether a reference comes from a command word among the first `n` nodes that is not the one that
/// includes a file.
pub open spec fn from_word(nodes: Seq<Node>, src: Seq<char>, n: int, found: SymbolView) -> bool {
    exists|k: int|
        0 <= k < n && (#[trigger] nodes[k]).kind@ == "escaped_word"@ && found.span == span_of(
            nodes,
            k,
        ) && cut_of(src, nodes[k].start as int, nodes[k].end as int) != seq!['\\'] + "include"@
}

/// Nothing else is a reference.
pub proof fn law_only_command_words_are_references(
    nodes: Seq<Node>,
    src: Seq<char>,
    n: int,
    i: int,
)
    requires
        0 <= n <= nodes.len(),
        0 <= i < references(nodes, src, n).len(),
    ensures
        from_word(nodes, src, n, references(nodes, src, n)[i]),
    decreases n,
{
    lemma_include_word();
    if n > 0 {
        let before = references(nodes, src, n - 1);
        let all = references(nodes, src, n);
        if i < before.len() {
            law_only_command_words_are_references(nodes, src, n - 1, i);
            assert(all[i] == before[i]);
        } else {
            assert(nodes[n - 1].kind@ == "escaped_word"@);
        }
    }
}

/// Every file that is included is found: the path that the string behind the word says, where the
/// string stands.
pub proof fn law_every_included_file_is_found(
    nodes: Seq<Node>,
    src: Seq<char>,
    n: int,
    k: int,
    string: usize,
    path: Seq<char>,
)
    requires
        0 <= k < n <= nodes.len(),
        calls(nodes, src, k, "include"@),
        crate::symbols::named_sibling_after(nodes, k) == Some(string),
        nodes[string as int].kind@ == "string"@,
        fragment_of(nodes, src, string as int) == Some(path),
    ensures
        includes(nodes, src, n).contains(
            IncludeView { path, span: span_of(nodes, string as int) },
        ),
    decreases n,
{
    lemma_include_word();
    let before = includes(nodes, src, n - 1);
    let all = includes(nodes, src, n);
    let one = IncludeView { path, span: span_of(nodes, string as int) };
    if k < n - 1 {
        law_every_included_file_is_found(nodes, src, n - 1, k, string, path);
        let i = choose|i: int| 0 <= i < before.len() && before[i] == one;
        assert(all[i] == one);
    } else {
        assert(included_at(nodes, src, k) == Some(one));
        assert(all[before.len() as int] == one);
    }
}

proof fn lemma_in_source_order(bindings: Seq<BindingView>, n: int, k: int)
    requires
        0 <= k < n <= bindings.len(),
    ensures
        in_source_order(bindings, n).contains(bindings[k]),
    decreases n,
{
    let before = in_source_order(bindings, n - 1);
    let start = bindings[n - 1].span.start;
    let at = slot(before, start);
    let all = in_source_order(bindings, n);
    lemma_slot(before, start);
    if k < n - 1 {
        lemma_in_source_order(bindings, n - 1, k);
        let i = choose|i: int| 0 <= i < before.len() && before[i] == bindings[k];
        if i < at {
            assert(all[i] == before[i]);
        } else {
            assert(all[i + 1] == before[i]);
        }
    } else {
        assert(all[at] == bindings[k]);
    }
}

/// Whether node `k` is the name on the left-hand side of an assignment at the top level of a file.
pub open spec fn is_assigned(nodes: Seq<Node>, k: int) -> bool {
    let lhs = nodes[k].parent as int;
    &&& 0 < k < nodes.len()
    &&& nodes[k].kind@ == "symbol"@
    &&& 0 < lhs
    &&& nodes[lhs].kind@ == "assignment_lhs"@
    &&& nodes[nodes[lhs].parent as int].kind@ == "lilypond_program"@
}

proof fn lemma_assignments(nodes: Seq<Node>, src: Seq<char>, n: int, k: int)
    requires
        0 <= k < n <= nodes.len(),
        is_assigned(nodes, k),
    ensures
        exists|i: int|
            0 <= i < assignments(nodes, src, n).len() && binds_at(
                #[trigger] assignments(nodes, src, n)[i],
                nodes,
                src,
                k,
            ),
    decreases n,
{
    let before = assignments(nodes, src, n - 1);
    let all = assignments(nodes, src, n);
    if k < n - 1 {
        lemma_assignments(nodes, src, n - 1, k);
        let i = choose|i: int|
            0 <= i < before.len() && binds_at(#[trigger] before[i], nodes, src, k);
        assert(all[i] == before[i]);
    } else {
        assert(binds_at(all[before.len() as int], nodes, src, k));
    }
}

/// Whether a binding is that of the name that node `k` writes.
pub open spec fn binds_at(binding: BindingView, nodes: Seq<Node>, src: Seq<char>, k: int) -> bool {
    binding.name == cut_of(src, nodes[k].start as int, nodes[k].end as int) && binding.span
        == span_of(nodes, k)
}

proof fn lemma_not_bound(assigned: Seq<BindingView>, bound: Seq<BindingView>, n: int, k: int)
    requires
        0 <= k < n <= assigned.len(),
        !starts_at(bound, assigned[k].span.start),
    ensures
        not_bound(assigned, bound, n).contains(assigned[k]),
    decreases n,
{
    let before = not_bound(assigned, bound, n - 1);
    let all = not_bound(assigned, bound, n);
    if k < n - 1 {
        lemma_not_bound(assigned, bound, n - 1, k);
        let i = choose|i: int| 0 <= i < before.len() && before[i] == assigned[k];
        assert(all[i] == assigned[k]);
    } else {
        assert(all[before.len() as int] == assigned[k]);
    }
}

/// Every name that a file assigns at its top level is bound where it is written, whether the value is
/// music or something that Scheme makes.
pub proof fn law_every_assigned_name_is_bound(nodes: Seq<Node>, src: Seq<char>, k: int)
    requires
        is_assigned(nodes, k),
    ensures
        exists|i: int|
            0 <= i < bindings_of(nodes, src).len() && (#[trigger] bindings_of(
                nodes,
                src,
            )[i]).span.start == nodes[k].start,
{
    let bound = scheme_bindings(nodes, src, 0);
    let assigned = assignments(nodes, src, nodes.len() as int);
    let rest = not_bound(assigned, bound, assigned.len() as int);
    let all = bound + rest;
    let n = all.len() as int;
    let sorted = bindings_of(nodes, src);
    lemma_assignments(nodes, src, nodes.len() as int, k);
    let i = choose|i: int|
        0 <= i < assigned.len() && binds_at(#[trigger] assigned[i], nodes, src, k);
    if starts_at(bound, assigned[i].span.start) {
        let j = choose|j: int|
            0 <= j < bound.len() && (#[trigger] bound[j]).span.start == assigned[i].span.start;
        assert(all[j] == bound[j]);
        lemma_in_source_order(all, n, j);
        let m = choose|m: int| 0 <= m < sorted.len() && sorted[m] == all[j];
        assert(sorted[m].span.start == nodes[k].start);
    } else {
        lemma_not_bound(assigned, bound, assigned.len() as int, i);
        let j = choose|j: int| 0 <= j < rest.len() && rest[j] == assigned[i];
        assert(all[bound.len() + j] == assigned[i]);
        lemma_in_source_order(all, n, bound.len() + j);
        let m = choose|m: int| 0 <= m < sorted.len() && sorted[m] == assigned[i];
        assert(sorted[m].span.start == nodes[k].start);
    }
}

/// Whether a text names one component of a path: it holds no separator, and is neither the directory
/// itself nor the one above.
pub open spec fn is_component(text: Seq<char>) -> bool {
    text.len() > 0 && !text.contains('/') && !text.contains('\\') && text != seq!['.'] && text
        != seq!['.', '.']
}

proof fn lemma_component(base: Seq<char>, name: Seq<char>, backslash: bool)
    requires
        is_component(name),
        base.len() > 0,
        base.last() == '/',
    ensures
        bare_path(base + name, backslash) == base + name,
        last_component(base + name, backslash) == base.len(),
        name_of_path(base + name, backslash) == Some(name),
        directory_of(base + name, backslash) == Some(base),
{
    let path = base + name;
    let n = path.len() as int;
    assert(path[n - 1] == name[name.len() - 1]);
    assert(name.contains(name[name.len() - 1]));
    if path[n - 1] == '.' && separates(path[n - 2], backslash) {
        if name.len() > 1 {
            assert(path[n - 2] == name[name.len() - 2]);
            assert(name.contains(name[name.len() - 2]));
        } else {
            assert(name =~= seq!['.']);
        }
    }
    lemma_last_component(base, name, backslash);
    assert(path.subrange(base.len() as int, n) =~= name);
    assert(path.subrange(0, base.len() as int) =~= base);
    reveal_strlit(".");
    reveal_strlit("..");
    assert("."@ =~= seq!['.']);
    assert(".."@ =~= seq!['.', '.']);
}

proof fn lemma_last_component(base: Seq<char>, name: Seq<char>, backslash: bool)
    requires
        base.len() > 0,
        base.last() == '/',
        !name.contains('/'),
        !name.contains('\\'),
    ensures
        last_component(base + name, backslash) == base.len(),
    decreases name.len(),
{
    let path = base + name;
    if name.len() > 0 {
        let rest = name.drop_last();
        assert(name.contains(name[name.len() - 1]));
        assert(path.last() == name.last());
        assert(path.drop_last() =~= base + rest);
        assert forall|i: int| 0 <= i < rest.len() implies rest[i] != '/' && rest[i] != '\\' by {
            assert(name.contains(name[i]));
        }
        lemma_last_component(base, rest, backslash);
    } else {
        assert(path =~= base);
    }
}

/// A separator at the end of a path changes neither its last component nor the directory it is in.
proof fn lemma_trailing(path: Seq<char>, backslash: bool)
    ensures
        bare_path(path + seq!['/'], backslash) == bare_path(path, backslash),
        name_of_path(path + seq!['/'], backslash) == name_of_path(path, backslash),
        directory_of(path + seq!['/'], backslash) == directory_of(path, backslash),
{
    let whole = path + seq!['/'];
    assert(whole[whole.len() - 1] == '/');
    assert(whole.drop_last() =~= path);
}

/// The directory that an installation shares its files in names the version: the one below
/// `share/lilypond`, wherever that is. The files that it installs are known by that version, and by
/// the plain name where the directories are called otherwise.
pub proof fn law_the_version_is_the_directory_below_share_lilypond(
    root: Seq<char>,
    share: Seq<char>,
    lilypond: Seq<char>,
    version: Seq<char>,
    ly: Seq<char>,
    backslash: bool,
)
    requires
        is_component(share),
        is_component(lilypond),
        is_component(version),
        is_component(ly),
        root.len() > 0,
        root.last() == '/',
    ensures
        ({
            let path = root + share + seq!['/'] + lilypond + seq!['/'] + version;
            let named = share == "share"@ && lilypond == "lilypond"@;
            &&& version_of(path, backslash) == if named {
                Some(version)
            } else {
                None
            }
            &&& layer_name(path + seq!['/'] + ly, backslash) == if named {
                "lilypond-"@ + version
            } else {
                "lilypond"@
            }
        }),
{
    let slash = seq!['/'];
    let a = root + share;
    let b = a + slash + lilypond;
    let path = b + slash + version;
    assert((a + slash).last() == '/');
    assert((b + slash).last() == '/');
    assert((path + slash).last() == '/');
    lemma_component(root, share, backslash);
    lemma_component(a + slash, lilypond, backslash);
    lemma_component(b + slash, version, backslash);
    lemma_component(path + slash, ly, backslash);
    lemma_trailing(a, backslash);
    lemma_trailing(b, backslash);
    lemma_trailing(path, backslash);
    assert(path =~= root + share + slash + lilypond + slash + version);
    assert(directory_of(path, backslash) == Some(b + slash));
    assert(directory_of(b + slash, backslash) == Some(a + slash));
    assert(name_of_path(b + slash, backslash) == Some(lilypond));
    assert(name_of_path(a + slash, backslash) == Some(share));
    assert(version_of(path + slash, backslash) == version_of(path, backslash));
}

proof fn lemma_with_aliases(aliases: Seq<Seq<char>>, more: Seq<Seq<char>>, n: int, name: Seq<char>)
    requires
        0 <= n <= more.len(),
    ensures
        with_aliases(aliases, more, n).contains(name) <==> aliases.contains(name) || more.subrange(
            0,
            n,
        ).contains(name),
        aliases.no_duplicates() ==> with_aliases(aliases, more, n).no_duplicates(),
        aliases.len() <= with_aliases(aliases, more, n).len(),
        with_aliases(aliases, more, n).subrange(0, aliases.len() as int) == aliases,
    decreases n,
{
    if n > 0 {
        lemma_with_aliases(aliases, more, n - 1, name);
        let before = with_aliases(aliases, more, n - 1);
        let all = with_aliases(aliases, more, n);
        let front = more.subrange(0, n - 1);
        let now = more.subrange(0, n);
        assert(now =~= front.push(more[n - 1]));
        lemma_with_aliases(aliases, more, n - 1, more[n - 1]);
        assert(all.contains(name) <==> before.contains(name) || more[n - 1] == name) by {
            if before.contains(name) {
                let i = choose|i: int| 0 <= i < before.len() && before[i] == name;
                assert(all[i] == name);
            }
            if more[n - 1] == name && !before.contains(name) {
                assert(all[before.len() as int] == name);
            }
        }
        assert(now.contains(name) <==> front.contains(name) || more[n - 1] == name) by {
            if front.contains(name) {
                let i = choose|i: int| 0 <= i < front.len() && front[i] == name;
                assert(now[i] == name);
            }
            if more[n - 1] == name {
                assert(now[n - 1] == name);
            }
        }
        assert(all.subrange(0, aliases.len() as int) =~= before.subrange(0, aliases.len() as int));
    } else {
        assert(more.subrange(0, 0) =~= Seq::empty());
        assert(aliases.subrange(0, aliases.len() as int) =~= aliases);
    }
}

/// A context type that is declared twice has the aliases of both, those of the first declaration
/// first and none twice; the description is that of the first that has one, and the name and its place
/// are the first's.
pub proof fn law_two_declarations_make_one_type(
    first: TypeView,
    second: TypeView,
    name: Seq<char>,
)
    ensures
        ({
            let both = merged_type(first, second);
            &&& both.aliases.contains(name) <==> first.aliases.contains(name)
                || second.aliases.contains(name)
            &&& first.aliases.no_duplicates() ==> both.aliases.no_duplicates()
            &&& both.aliases.len() >= first.aliases.len()
            &&& both.aliases.subrange(0, first.aliases.len() as int) == first.aliases
            &&& first.description is Some ==> both.description == first.description
            &&& first.description is None ==> both.description == second.description
            &&& both.name == first.name
            &&& both.name_span == first.name_span
        }),
{
    lemma_with_aliases(first.aliases, second.aliases, second.aliases.len() as int, name);
    assert(second.aliases.subrange(0, second.aliases.len() as int) =~= second.aliases);
}

/// The letter of a note name, from C up.
pub open spec fn letter(note_name: int) -> char {
    seq!['c', 'd', 'e', 'f', 'g', 'a', 'b'][note_name]
}

proof fn lemma_dutch_notes(n: int, k: int, alteration: int)
    requires
        0 <= k < n,
        -2 <= alteration <= 2,
    ensures
        dutch_notes(n).len() == 5 * n,
        dutch_notes(n)[5 * k + 2 + alteration] == dutch_note(k, alteration),
    decreases n,
{
    if n > 1 {
        lemma_dutch_notes(
            n - 1,
            if k < n - 1 {
                k
            } else {
                0
            },
            alteration,
        );
    } else {
        assert(dutch_notes(0).len() == 0);
    }
}

/// In Dutch every note is its letter with `is` behind it for each half tone up and `es` for each half
/// tone down, up to two; and the flats of E and A are known by their short names too.
pub proof fn law_dutch_names_sharpen_with_is_and_flatten_with_es(note_name: int)
    requires
        0 <= note_name < 7,
    ensures
        ({
            let all = dutch_notes(7) + dutch_contractions();
            let own = seq![letter(note_name)];
            let sharp = seq!['i', 's'];
            let flat = seq!['e', 's'];
            &&& all.contains(NoteView { text: own, note_name, alteration: 0 })
            &&& all.contains(NoteView { text: own + sharp, note_name, alteration: 1 })
            &&& all.contains(NoteView { text: own + sharp + sharp, note_name, alteration: 2 })
            &&& all.contains(NoteView { text: own + flat, note_name, alteration: -1 })
            &&& all.contains(NoteView { text: own + flat + flat, note_name, alteration: -2 })
            &&& all.contains(NoteView { text: flat, note_name: 2, alteration: -1 })
            &&& all.contains(NoteView { text: flat + flat, note_name: 2, alteration: -2 })
            &&& all.contains(NoteView { text: seq!['a', 's'], note_name: 5, alteration: -1 })
            &&& all.contains(
                NoteView { text: seq!['a', 's'] + flat, note_name: 5, alteration: -2 },
            )
            &&& all.len() == 39
        }),
{
    let all = dutch_notes(7) + dutch_contractions();
    let own = seq![letter(note_name)];
    let sharp = seq!['i', 's'];
    let flat = seq!['e', 's'];
    reveal_strlit("c");
    reveal_strlit("d");
    reveal_strlit("e");
    reveal_strlit("f");
    reveal_strlit("g");
    reveal_strlit("a");
    reveal_strlit("b");
    reveal_strlit("");
    reveal_strlit("is");
    reveal_strlit("isis");
    reveal_strlit("es");
    reveal_strlit("eses");
    reveal_strlit("as");
    reveal_strlit("ases");
    assert("is"@ =~= sharp);
    assert("isis"@ =~= sharp + sharp);
    assert("es"@ =~= flat);
    assert("eses"@ =~= flat + flat);
    assert("as"@ =~= seq!['a', 's']);
    assert("ases"@ =~= seq!['a', 's'] + flat);
    assert(crate::note_names::dutch_letter(note_name) =~= own);
    lemma_dutch_notes(7, note_name, 0);
    lemma_dutch_notes(7, note_name, 1);
    lemma_dutch_notes(7, note_name, 2);
    lemma_dutch_notes(7, note_name, -1);
    lemma_dutch_notes(7, note_name, -2);
    assert(all[5 * note_name + 2] == dutch_note(note_name, 0));
    assert(dutch_note(note_name, 0).text =~= own);
    assert(all[5 * note_name + 3] == dutch_note(note_name, 1));
    assert(all[5 * note_name + 4] == dutch_note(note_name, 2));
    assert(dutch_note(note_name, 2).text =~= own + sharp + sharp);
    assert(all[5 * note_name + 1] == dutch_note(note_name, -1));
    assert(all[5 * note_name] == dutch_note(note_name, -2));
    assert(dutch_note(note_name, -2).text =~= own + flat + flat);
    assert(all[35] == dutch_contractions()[0]);
    assert(all[36] == dutch_contractions()[1]);
    assert(all[37] == dutch_contractions()[2]);
    assert(all[38] == dutch_contractions()[3]);
}

proof fn lemma_words_shift(head: Seq<char>, tail: Seq<char>, from: int)
    requires
        0 <= from <= tail.len() + 1,
    ensures
        words_from(head + tail, head.len() + from) == words_from(tail, from),
    decreases tail.len() + 1 - from,
{
    if from <= tail.len() {
        let whole = head + tail;
        let at = head.len() + from;
        lemma_break_shift(head, tail, from);
        let end = line_break(tail, from);
        lemma_line_break(tail, from);
        lemma_line_break(whole, at);
        assert(whole.subrange(at, head.len() + end) =~= tail.subrange(from, end));
        lemma_words_shift(head, tail, end + 1);
    }
}

proof fn lemma_break_shift(head: Seq<char>, tail: Seq<char>, from: int)
    requires
        0 <= from <= tail.len(),
    ensures
        line_break(head + tail, head.len() + from) == head.len() + line_break(tail, from),
    decreases tail.len() - from,
{
    if from < tail.len() {
        assert((head + tail)[head.len() + from] == tail[from]);
        if tail[from] != '\n' {
            lemma_break_shift(head, tail, from + 1);
        }
    }
}

proof fn lemma_first_break(line: Seq<char>, rest: Seq<char>, from: int)
    requires
        !line.contains('\n'),
        0 <= from <= line.len(),
    ensures
        line_break(line + seq!['\n'] + rest, from) == line.len(),
    decreases line.len() - from,
{
    let text = line + seq!['\n'] + rest;
    if from < line.len() {
        assert(text[from] == line[from]);
        assert(line.contains(line[from]));
        lemma_first_break(line, rest, from + 1);
    } else {
        assert(text[from] == '\n');
    }
}

/// A word list names one word on each line that is a backslash and the name, white space around them
/// aside; other lines name none.
pub proof fn law_a_word_list_names_a_word_on_each_line(
    line: Seq<char>,
    rest: Seq<char>,
    before: Seq<char>,
    name: Seq<char>,
    behind: Seq<char>,
)
    requires
        !line.contains('\n'),
    ensures
        line == before + seq!['\\'] + name + behind && all_white(before) && all_white(behind)
            && tight(seq!['\\'] + name) ==> words_of(line + seq!['\n'] + rest) == seq![name]
            + words_of(rest),
        all_white(line) ==> words_of(line + seq!['\n'] + rest) == words_of(rest),
        line == before + name + behind && all_white(before) && all_white(behind) && tight(name)
            && name[0] != '\\' ==> words_of(line + seq!['\n'] + rest) == words_of(rest),
{
    let text = line + seq!['\n'] + rest;
    lemma_first_break(line, rest, 0);
    lemma_words_shift(line + seq!['\n'], rest, 0);
    assert(text.subrange(0, line.len() as int) =~= line);
    assert(words_of(text) == word_on(line) + words_of(rest));
    if line == before + seq!['\\'] + name + behind && all_white(before) && all_white(behind) && tight(
        seq!['\\'] + name,
    ) {
        let word = seq!['\\'] + name;
        assert(line =~= before + word + behind);
        lemma_trimmed(before, word, behind);
        assert(word.subrange(1, word.len() as int) =~= name);
    }
    if all_white(line) {
        lemma_white_ends(line);
        assert(crate::text::trimmed(line).len() == 0) by {
            let n = crate::text::leading_white(line) as int;
            if n < line.len() {
                assert(crate::text::white(line[n]));
            }
            let start = crate::text::trimmed_start(line);
            assert(start =~= Seq::empty());
            assert(crate::text::trimmed_end(start).len() <= start.len());
        }
        assert(word_on(line) + words_of(rest) =~= words_of(rest));
    }
    if line == before + name + behind && all_white(before) && all_white(behind) && tight(name)
        && name[0] != '\\' {
        lemma_trimmed(before, name, behind);
        assert(word_on(line) + words_of(rest) =~= words_of(rest));
    }
}

proof fn lemma_reach_past(bytes: Seq<u8>, from: int, to: int, want: int)
    requires
        0 <= from <= to <= bytes.len(),
        want >= utf16_between(bytes, from, to),
    ensures
        reach(bytes, from, to, want) == to,
    decreases to - from,
{
    if from < to {
        lemma_utf16_first(bytes, from, to);
        lemma_reach_past(bytes, from + 1, to, want - utf16_units(bytes[from]));
    }
}

proof fn lemma_utf16_first(bytes: Seq<u8>, from: int, to: int)
    requires
        0 <= from < to <= bytes.len(),
    ensures
        utf16_between(bytes, from, to) == utf16_units(bytes[from]) + utf16_between(
            bytes,
            from + 1,
            to,
        ),
        !is_continuation_byte(bytes[from]) ==> utf16_units(bytes[from]) > 0,
    decreases to - from,
{
    reveal_with_fuel(utf16_between, 2);
    if from + 1 < to {
        lemma_utf16_first(bytes, from, to - 1);
    }
}

/// A position behind the end of its line is the end of the line, and one behind the last line is none.
pub proof fn law_a_position_past_its_line_is_its_end(bytes: Seq<u8>, position: Position)
    requires
        bytes.len() <= usize::MAX,
    ensures
        ({
            let starts = line_starts_of(bytes, bytes.len() as int);
            let line = position.line as int;
            let end = if line + 1 < starts.len() {
                starts[line + 1] as int
            } else {
                bytes.len() as int
            };
            &&& line >= starts.len() ==> offset_of(bytes, position) is None
            &&& line < starts.len() && 0 <= starts[line] <= end <= bytes.len()
                && position.character >= utf16_between(bytes, starts[line] as int, end)
                ==> offset_of(bytes, position) == Some(end)
        }),
{
    let starts = line_starts_of(bytes, bytes.len() as int);
    let line = position.line as int;
    let end = if line + 1 < starts.len() {
        starts[line + 1] as int
    } else {
        bytes.len() as int
    };
    if line < starts.len() && 0 <= starts[line] <= end <= bytes.len() && position.character
        >= utf16_between(bytes, starts[line] as int, end) {
        lemma_reach_past(bytes, starts[line] as int, end, position.character as int);
    }
}

} // verus!
