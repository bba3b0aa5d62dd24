//! The install layer: command knowledge read out of a LilyPond installation's own initialisation
//! files.
//!
//! The install files are LilyPond source like any other, so nothing new is read here; only the files
//! are. A command that one of them defines carries no place: a place in another file than the
//! cursor's would lead go-to-definition astray.
use vstd::prelude::*;
use vstd::string::StrSliceExecFns;
use std::sync::Arc;
use crate::command::definition::{
    Binding, called_by, is_variable, last_bound, lemma_with, take_entry,
};
use crate::command::scheme::{BindingView, are_bindings};
use crate::command::{Behaviour, Command};
use crate::context::{ContextType, TypeView, declared_types, read, texts_in, text_in, type_views};
use crate::grammar::{parse, parses_to};
use crate::symbols::{assignments, bindings_of, extract, merge_bindings};
use crate::syntax::SyntaxTree;
use crate::text::{chars_of, same};
use crate::vocabulary::{Entry, Layer, distinct_entries};
use crate::walk::holds_name;

verus! {

/// The file names read for commands, in the order they are read: the definitions that any file can
/// reach without including anything itself.
pub fn file_names() -> (r: Vec<&'static str>)
    ensures
        r@.len() == 17,
        r@[0]@ == "declarations-init.ly"@,
        r@[1]@ == "music-functions-init.ly"@,
        r@[2]@ == "toc-init.ly"@,
        r@[3]@ == "drumpitch-init.ly"@,
        r@[4]@ == "chord-modifiers-init.ly"@,
        r@[5]@ == "script-init.ly"@,
        r@[6]@ == "chord-repetition-init.ly"@,
        r@[7]@ == "scale-definitions-init.ly"@,
        r@[8]@ == "dynamic-scripts-init.ly"@,
        r@[9]@ == "spanners-init.ly"@,
        r@[10]@ == "predefined-fretboards-init.ly"@,
        r@[11]@ == "string-tunings-init.ly"@,
        r@[12]@ == "property-init.ly"@,
        r@[13]@ == "grace-init.ly"@,
        r@[14]@ == "midi-init.ly"@,
        r@[15]@ == "paper-defaults-init.ly"@,
        r@[16]@ == "context-mods-init.ly"@,
{
    vec![
        "declarations-init.ly",
        "music-functions-init.ly",
        "toc-init.ly",
        "drumpitch-init.ly",
        "chord-modifiers-init.ly",
        "script-init.ly",
        "chord-repetition-init.ly",
        "scale-definitions-init.ly",
        "dynamic-scripts-init.ly",
        "spanners-init.ly",
        "predefined-fretboards-init.ly",
        "string-tunings-init.ly",
        "property-init.ly",
        "grace-init.ly",
        "midi-init.ly",
        "paper-defaults-init.ly",
        "context-mods-init.ly",
    ]
}

/// The file names read for context types, in the order they are read. LilyPond declares every
/// context type twice, once in each.
pub fn context_file_names() -> (r: Vec<&'static str>)
    ensures
        r@.len() == 2,
        r@[0]@ == "engraver-init.ly"@,
        r@[1]@ == "performer-init.ly"@,
{
    vec!["engraver-init.ly", "performer-init.ly"]
}

/// `std::path::is_separator`: whether a character separates the components of a path on the machine
/// at hand. `/` does on every one; of any other character nothing is claimed.
#[verifier::external_body]
fn is_separator(c: char) -> (r: bool)
    ensures
        c == '/' ==> r,
{
    std::path::is_separator(c)
}

/// Whether a character separates the components of a path, on a machine where the backslash does or
/// does not.
pub open spec fn separates(c: char, backslash: bool) -> bool {
    c == '/' || (backslash && c == '\\')
}

/// A path with the separators at its end left out, and the components there that name the same
/// place.
pub open spec fn bare_path(path: Seq<char>, backslash: bool) -> Seq<char>
    decreases path.len(),
{
    let n = path.len() as int;
    if n > 0 && separates(path[n - 1], backslash) {
        bare_path(path.drop_last(), backslash)
    } else if n > 1 && path[n - 1] == '.' && separates(path[n - 2], backslash) {
        bare_path(path.subrange(0, n - 2), backslash)
    } else {
        path
    }
}

/// Where the last component of a path starts.
pub open spec fn last_component(path: Seq<char>, backslash: bool) -> nat
    decreases path.len(),
{
    if path.len() == 0 || separates(path.last(), backslash) {
        path.len()
    } else {
        last_component(path.drop_last(), backslash)
    }
}

/// The name of the file or directory that a path leads to; none for a path that ends in none.
pub open spec fn name_of_path(path: Seq<char>, backslash: bool) -> Option<Seq<char>> {
    let bare = bare_path(path, backslash);
    let name = bare.subrange(last_component(bare, backslash) as int, bare.len() as int);
    if name.len() == 0 || name == "."@ || name == ".."@ {
        None
    } else {
        Some(name)
    }
}

/// The directory that a path lies in; none for the root, and for the empty path.
pub open spec fn directory_of(path: Seq<char>, backslash: bool) -> Option<Seq<char>> {
    let bare = bare_path(path, backslash);
    if bare.len() == 0 {
        None
    } else {
        Some(bare.subrange(0, last_component(bare, backslash) as int))
    }
}

/// How many characters of a path are left, and where the last component of those starts.
fn split(path: &str, backslash: bool) -> (r: (usize, usize))
    ensures
        r.1 <= r.0 <= path@.len(),
        bare_path(path@, backslash) == path@.subrange(0, r.0 as int),
        last_component(bare_path(path@, backslash), backslash) == r.1,
{
    let chars = chars_of(path);
    let mut n: usize = chars.len();
    assert(path@.subrange(0, path@.len() as int) =~= path@);
    while (n > 0 && (chars[n - 1] == '/' || (backslash && chars[n - 1] == '\\'))) || (n > 1
        && chars[n - 1] == '.' && (chars[n - 2] == '/' || (backslash && chars[n - 2] == '\\')))
        invariant
            chars@ == path@,
            n <= chars@.len(),
            bare_path(path@, backslash) == bare_path(path@.subrange(0, n as int), backslash),
        decreases n,
    {
        let ghost front = path@.subrange(0, n as int);
        if chars[n - 1] != '.' {
            assert(front.drop_last() =~= path@.subrange(0, n - 1));
            n = n - 1;
        } else {
            assert(front.subrange(0, n - 2) =~= path@.subrange(0, n - 2));
            n = n - 2;
        }
    }
    let ghost bare = path@.subrange(0, n as int);
    assert(bare_path(path@, backslash) == bare);
    let mut start: usize = n;
    while start > 0 && chars[start - 1] != '/' && !(backslash && chars[start - 1] == '\\')
        invariant
            chars@ == path@,
            n <= chars@.len(),
            start <= n,
            bare == path@.subrange(0, n as int),
            last_component(bare, backslash) == last_component(
                path@.subrange(0, start as int),
                backslash,
            ),
        decreases start,
    {
        assert(path@.subrange(0, start as int).drop_last() =~= path@.subrange(0, start - 1));
        start = start - 1;
    }
    (n, start)
}

/// The name of the file or directory that a path leads to.
fn file_name(path: &str, backslash: bool) -> (r: Option<&str>)
    ensures
        match r {
            Some(name) => name_of_path(path@, backslash) == Some(name@),
            None => name_of_path(path@, backslash) is None,
        },
{
    let (n, start) = split(path, backslash);
    let name = path.substring_char(start, n);
    assert(name@ =~= bare_path(path@, backslash).subrange(start as int, n as int));
    if n == start || same(name, ".") || same(name, "..") {
        None
    } else {
        Some(name)
    }
}

/// The directory that a path lies in.
fn parent(path: &str, backslash: bool) -> (r: Option<&str>)
    ensures
        match r {
            Some(directory) => directory_of(path@, backslash) == Some(directory@),
            None => directory_of(path@, backslash) is None,
        },
{
    let (n, start) = split(path, backslash);
    if n == 0 {
        return None;
    }
    let directory = path.substring_char(0, start);
    assert(directory@ =~= bare_path(path@, backslash).subrange(0, start as int));
    Some(directory)
}

/// Whether a path leads to something called `name`.
pub open spec fn leads_to(path: Option<Seq<char>>, name: Seq<char>, backslash: bool) -> bool {
    path is Some && name_of_path(path->0, backslash) == Some(name)
}

/// The directory that the directory of a path lies in.
pub open spec fn directory_above(path: Option<Seq<char>>, backslash: bool) -> Option<Seq<char>> {
    match path {
        Some(path) => directory_of(path, backslash),
        None => None,
    }
}

/// The version that a directory is laid out for: `2.24.3` for one that ends in
/// `share/lilypond/2.24.3`, and none for any other.
pub open spec fn version_of(share_dir: Seq<char>, backslash: bool) -> Option<Seq<char>> {
    let lilypond = directory_of(share_dir, backslash);
    let share = directory_above(lilypond, backslash);
    if leads_to(lilypond, "lilypond"@, backslash) && leads_to(share, "share"@, backslash) {
        name_of_path(share_dir, backslash)
    } else {
        None
    }
}

/// Whether a path leads to something called `name`.
fn is_named(path: Option<&str>, name: &str, backslash: bool) -> (r: bool)
    ensures
        r == leads_to(
            match path {
                Some(path) => Some(path@),
                None => None,
            },
            name@,
            backslash,
        ),
{
    match path {
        Some(path) => match file_name(path, backslash) {
            Some(found) => same(found, name),
            None => false,
        },
        None => false,
    }
}

/// [`version`] on a machine where the backslash separates the components of a path, or where it does
/// not.
pub fn version_on(share_dir: &str, backslash: bool) -> (r: Option<&str>)
    ensures
        match r {
            Some(name) => version_of(share_dir@, backslash) == Some(name@),
            None => version_of(share_dir@, backslash) is None,
        },
{
    let lilypond = parent(share_dir, backslash);
    let share = match lilypond {
        Some(path) => parent(path, backslash),
        None => None,
    };
    if is_named(lilypond, "lilypond", backslash) && is_named(share, "share", backslash) {
        file_name(share_dir, backslash)
    } else {
        None
    }
}

/// Whether `version` is what a directory is laid out for on some machine. Where the backslash
/// separates makes no difference to a path without one.
pub open spec fn is_version(share_dir: Seq<char>, version: Option<Seq<char>>) -> bool {
    &&& version == version_of(share_dir, true) || version == version_of(share_dir, false)
    &&& !share_dir.contains('\\') ==> version == version_of(share_dir, false)
}

/// The version an installation is of, read from the name of its version-specific share directory:
/// `share/lilypond/2.24.3` is `2.24.3`. `None` for a directory not laid out that way: no version is
/// better than a wrong one.
pub fn version(share_dir: &str) -> (r: Option<&str>)
    ensures
        is_version(
            share_dir@,
            match r {
                Some(name) => Some(name@),
                None => None,
            },
        ),
{
    proof {
        lemma_version_without_backslash(share_dir@);
    }
    version_on(share_dir, is_separator('\\'))
}

/// What hover calls the layer read from a directory.
pub open spec fn layer_name(ly_dir: Seq<char>, backslash: bool) -> Seq<char> {
    match directory_of(ly_dir, backslash) {
        Some(share_dir) => match version_of(share_dir, backslash) {
            Some(version) => "lilypond-"@ + version,
            None => "lilypond"@,
        },
        None => "lilypond"@,
    }
}

/// Whether `name` is what hover calls the layer read from a directory on some machine. Where the
/// backslash separates makes no difference to a path without one.
pub open spec fn is_layer_name(ly_dir: Seq<char>, name: Seq<char>) -> bool {
    &&& name == layer_name(ly_dir, true) || name == layer_name(ly_dir, false)
    &&& !ly_dir.contains('\\') ==> name == layer_name(ly_dir, false)
}

/// [`origin`] on a machine where the backslash separates the components of a path, or where it does
/// not.
pub fn origin_on(ly_dir: &str, backslash: bool) -> (r: String)
    ensures
        r@ == layer_name(ly_dir@, backslash),
{
    match parent(ly_dir, backslash) {
        Some(share_dir) => match version_on(share_dir, backslash) {
            Some(version) => {
                let mut name = "lilypond-".to_string();
                name.append(version);
                name
            },
            None => "lilypond".to_string(),
        },
        None => "lilypond".to_string(),
    }
}

/// What hover calls this layer: `lilypond-2.24.3`, naming the version whose files it read. A
/// directory that does not name a version still names LilyPond, just not which one.
pub fn origin(ly_dir: &str) -> (r: String)
    ensures
        is_layer_name(ly_dir@, r@),
{
    proof {
        if !ly_dir@.contains('\\') {
            lemma_path_without_backslash(ly_dir@);
            match directory_of(ly_dir@, false) {
                Some(share_dir) => {
                    lemma_version_without_backslash(share_dir);
                },
                None => {},
            }
        }
    }
    origin_on(ly_dir, is_separator('\\'))
}

/// A part of a path without a backslash is without one.
proof fn lemma_part_without_backslash(path: Seq<char>, from: int, to: int)
    requires
        0 <= from <= to <= path.len(),
        !path.contains('\\'),
    ensures
        !path.subrange(from, to).contains('\\'),
{
    let part = path.subrange(from, to);
    if part.contains('\\') {
        let i = choose|i: int| 0 <= i < part.len() && part[i] == '\\';
        assert(path[from + i] == '\\');
    }
}

proof fn lemma_bare_without_backslash(path: Seq<char>)
    requires
        !path.contains('\\'),
    ensures
        bare_path(path, true) == bare_path(path, false),
        !bare_path(path, false).contains('\\'),
        last_component(path, true) == last_component(path, false) <= path.len(),
    decreases path.len(),
{
    let n = path.len() as int;
    if n > 0 {
        assert(path.contains(path[n - 1]));
        lemma_part_without_backslash(path, 0, n - 1);
        assert(path.subrange(0, n - 1) =~= path.drop_last());
        lemma_bare_without_backslash(path.drop_last());
        if n > 1 {
            assert(path.contains(path[n - 2]));
            lemma_part_without_backslash(path, 0, n - 2);
            lemma_bare_without_backslash(path.subrange(0, n - 2));
        }
    }
}

/// Where the backslash separates makes no difference to a path without one.
proof fn lemma_path_without_backslash(path: Seq<char>)
    requires
        !path.contains('\\'),
    ensures
        name_of_path(path, true) == name_of_path(path, false),
        directory_of(path, true) == directory_of(path, false),
        directory_of(path, false) is Some ==> !directory_of(path, false)->0.contains('\\'),
{
    lemma_bare_without_backslash(path);
    let bare = bare_path(path, false);
    lemma_bare_without_backslash(bare);
    lemma_part_without_backslash(bare, 0, last_component(bare, false) as int);
}

proof fn lemma_version_without_backslash(share_dir: Seq<char>)
    ensures
        !share_dir.contains('\\') ==> version_of(share_dir, true) == version_of(share_dir, false),
{
    if !share_dir.contains('\\') {
        lemma_path_without_backslash(share_dir);
        match directory_of(share_dir, false) {
            Some(lilypond) => {
                lemma_path_without_backslash(lilypond);
                match directory_of(lilypond, false) {
                    Some(share) => {
                        lemma_path_without_backslash(share);
                    },
                    None => {},
                }
            },
            None => {},
        }
    }
}

/// Those of the first `n` new aliases that are not there yet, behind the ones that are.
pub open spec fn with_aliases(aliases: Seq<Seq<char>>, more: Seq<Seq<char>>, n: int) -> Seq<
    Seq<char>,
>
    decreases n,
{
    if n <= 0 {
        aliases
    } else {
        let before = with_aliases(aliases, more, n - 1);
        if before.contains(more[n - 1]) {
            before
        } else {
            before.push(more[n - 1])
        }
    }
}

/// What two declarations of one context type say together.
pub open spec fn merged_type(engraver: TypeView, performer: TypeView) -> TypeView {
    TypeView {
        name: engraver.name,
        aliases: with_aliases(engraver.aliases, performer.aliases, performer.aliases.len() as int),
        description: match engraver.description {
            Some(text) => Some(text),
            None => performer.description,
        },
        name_span: engraver.name_span,
        block_span: engraver.block_span,
    }
}

/// Folds one declaration of a context type into another, field by field: whichever has a description
/// keeps it, the aliases are those of both, and the name and places are the first one's.
pub fn merge_context_type(engraver: ContextType, performer: ContextType) -> (r: ContextType)
    ensures
        r@ == merged_type(engraver@, performer@),
{
    let ghost first = texts_in(engraver.aliases@);
    let ghost second = texts_in(performer.aliases@);
    let ghost described = text_in(engraver.description);
    let mut aliases = engraver.aliases;
    let mut k: usize = 0;
    while k < performer.aliases.len()
        invariant
            k <= performer.aliases@.len(),
            second == texts_in(performer.aliases@),
            texts_in(aliases@) == with_aliases(first, second, k as int),
        decreases performer.aliases.len() - k,
    {
        let ghost before = texts_in(aliases@);
        let alias = performer.aliases[k].clone();
        assert(second[k as int] == alias@);
        assert(crate::walk::names(aliases@) =~= texts_in(aliases@));
        if !holds_name(&aliases, alias.as_str()) {
            aliases.push(alias);
            assert(texts_in(aliases@) =~= before.push(alias@));
        }
        k = k + 1;
    }
    assert(second.len() == performer.aliases@.len());
    let description = match engraver.description {
        Some(text) => Some(text),
        None => performer.description,
    };
    ContextType {
        name: engraver.name,
        aliases,
        description,
        name_span: engraver.name_span,
        block_span: engraver.block_span,
    }
}

/// Which of a list of types bear a name.
pub open spec fn place_of_type(types: Seq<TypeView>, name: Seq<char>) -> Option<int>
    decreases types.len(),
{
    if types.len() == 0 {
        None
    } else if types.last().name == name {
        Some(types.len() - 1)
    } else {
        place_of_type(types.drop_last(), name)
    }
}

/// The first `n` declarations, those of one type folded into the first of it.
pub open spec fn merged_types(types: Seq<TypeView>, n: int) -> Seq<TypeView>
    decreases n,
{
    if n <= 0 {
        Seq::empty()
    } else {
        let before = merged_types(types, n - 1);
        match place_of_type(before, types[n - 1].name) {
            Some(i) => before.update(i, merged_type(before[i], types[n - 1])),
            None => before.push(types[n - 1]),
        }
    }
}

proof fn lemma_place_of_type(types: Seq<TypeView>, name: Seq<char>)
    ensures
        match place_of_type(types, name) {
            Some(i) => 0 <= i < types.len() && types[i].name == name,
            None => forall|i: int| 0 <= i < types.len() ==> (#[trigger] types[i]).name != name,
        },
    decreases types.len(),
{
    if types.len() > 0 {
        let shorter = types.drop_last();
        lemma_place_of_type(shorter, name);
        assert forall|i: int| 0 <= i < shorter.len() implies #[trigger] types[i] == shorter[i] by {}
    }
}

/// Where among `types` a name stands.
fn find_place(types: &Vec<ContextType>, name: &str) -> (r: Option<usize>)
    ensures
        match r {
            Some(i) => place_of_type(type_views(types@), name@) == Some(i as int) && i
                < types@.len(),
            None => place_of_type(type_views(types@), name@) is None,
        },
{
    let ghost views = type_views(types@);
    let mut k: usize = types.len();
    assert(views.subrange(0, k as int) =~= views);
    while k > 0
        invariant
            k <= types@.len(),
            views == type_views(types@),
            place_of_type(views, name@) == place_of_type(views.subrange(0, k as int), name@),
        decreases k,
    {
        assert(views.subrange(0, k as int).drop_last() =~= views.subrange(0, k - 1));
        assert(views[k - 1] == types@[k - 1]@);
        if same(types[k - 1].name.as_str(), name) {
            return Some(k - 1);
        }
        k = k - 1;
    }
    None
}

/// Folds every declaration of a context type into the first one of it.
pub fn merge_types(types: Vec<ContextType>) -> (r: Vec<ContextType>)
    ensures
        type_views(r@) == merged_types(type_views(types@), types@.len() as int),
{
    let ghost all = types@;
    let ghost views = type_views(all);
    let mut out: Vec<ContextType> = Vec::new();
    assert(type_views(out@) =~= Seq::empty());
    for found in it: types
        invariant
            it.seq() == all,
            views == type_views(all),
            type_views(out@) == merged_types(views, it.index() as int),
    {
        let ghost k = it.index() as int;
        let ghost before = type_views(out@);
        let ghost view = found@;
        assert(views[k] == view);
        match find_place(&out, found.name.as_str()) {
            Some(i) => {
                let first = out.remove(i);
                assert(before[i as int] == first@);
                let merged = merge_context_type(first, found);
                out.insert(i, merged);
                assert(type_views(out@) =~= before.update(
                    i as int,
                    merged_type(before[i as int], view),
                ));
            },
            None => {
                out.push(found);
                assert(type_views(out@) =~= before.push(view));
            },
        }
    }
    out
}

/// A type is listed once, however often it was declared, and none is lost.
pub proof fn law_each_context_type_is_listed_once(types: Seq<TypeView>, n: int)
    requires
        0 <= n <= types.len(),
    ensures
        forall|i: int, j: int|
            0 <= i < j < merged_types(types, n).len() ==> (#[trigger] merged_types(types, n)[i]).name
                != (#[trigger] merged_types(types, n)[j]).name,
        forall|k: int|
            0 <= k < n ==> place_of_type(merged_types(types, n), (#[trigger] types[k]).name) is Some,
    decreases n,
{
    if n > 0 {
        law_each_context_type_is_listed_once(types, n - 1);
        let before = merged_types(types, n - 1);
        let after = merged_types(types, n);
        let name = types[n - 1].name;
        lemma_place_of_type(before, name);
        assert forall|i: int, j: int| 0 <= i < j < after.len() implies (#[trigger] after[i]).name
            != (#[trigger] after[j]).name by {
            match place_of_type(before, name) {
                Some(p) => {
                    assert(after[i].name == before[i].name);
                    assert(after[j].name == before[j].name);
                },
                None => {
                    assert(after[i] == before[i]);
                    if j < before.len() {
                        assert(after[j] == before[j]);
                    }
                },
            }
        }
        assert forall|k: int| 0 <= k < n implies place_of_type(after, (#[trigger] types[k]).name)
            is Some by {
            lemma_place_of_type(after, types[k].name);
            lemma_place_of_type(before, types[k].name);
            match place_of_type(before, types[k].name) {
                Some(i) => {
                    assert(after[i].name == types[k].name);
                },
                None => {
                    match place_of_type(before, name) {
                        Some(p) => {
                            assert(after[p].name == name);
                        },
                        None => {
                            assert(after[before.len() as int].name == name);
                        },
                    }
                },
            }
        }
    }
}

/// Whether `command` is what an install binding defines: what the reader made of it, or a name with
/// nothing behind it.
pub open spec fn is_installed(command: Command, binding: Binding) -> bool {
    match binding.command {
        Some(bound) => command == bound,
        None => is_bare_name(command, binding.name@),
    }
}

/// Whether `command` is a name with nothing behind it.
pub open spec fn is_bare_name(command: Command, name: Seq<char>) -> bool {
    &&& is_variable(command, name, Seq::empty(), None)
    &&& command.definition is None
    &&& command.redefines is None
}

/// Whether `found` is what an installation makes of a name: the last binding of it, or a context type
/// of that name.
pub open spec fn installs(
    found: Option<Command>,
    bindings: Seq<Binding>,
    types: Seq<TypeView>,
    name: Seq<char>,
) -> bool {
    match last_bound(bindings, name) {
        Some(i) => found is Some && is_installed(found->0, bindings[i]),
        None => if place_of_type(types, name) is Some {
            found is Some && is_bare_name(found->0, name)
        } else {
            found is None
        },
    }
}

/// Whether a layer is the one that bindings and types make.
pub open spec fn is_install_layer(layer: Layer, bindings: Seq<Binding>, types: Seq<TypeView>) -> bool {
    let merged = merged_types(types, types.len() as int);
    &&& layer.wf()
    &&& type_views(layer.context_types@) == merged
    &&& layer.context_instances@.len() == 0
    &&& forall|name: Seq<char>| #[trigger]
        installs(layer.lookup(name), bindings, merged, name)
}

/// A name with nothing behind it.
fn bare_name(name: &str) -> (r: Command)
    ensures
        is_bare_name(r, name@),
{
    Command {
        name: name.to_string(),
        params: Vec::new(),
        behaviour: Behaviour::Variable { value: None },
        documentation: None,
        completions: Vec::new(),
        definition: None,
        redefines: None,
    }
}

/// The commands that bindings make, the last of a name winning.
fn bind_all(bindings: Vec<Binding>) -> (r: Vec<Entry>)
    ensures
        distinct_entries(r@),
        forall|name: Seq<char>| #[trigger]
            installs(called_by(r@, name), bindings@, Seq::empty(), name),
{
    let ghost all = bindings@;
    let mut commands: Vec<Entry> = Vec::new();
    for binding in it: bindings
        invariant
            it.seq() == all,
            distinct_entries(commands@),
            forall|name: Seq<char>| #[trigger]
                installs(
                    called_by(commands@, name),
                    all.subrange(0, it.index() as int),
                    Seq::empty(),
                    name,
                ),
    {
        let ghost k = it.index() as int;
        let ghost before = commands@;
        let name = binding.name.clone();
        let _ = take_entry(&mut commands, name.as_str());
        let ghost without = commands@;
        let ghost bound = binding;
        let command = match binding.command {
            Some(command) => command,
            None => bare_name(name.as_str()),
        };
        let entry = Entry { name, command: Arc::new(command) };
        commands.push(entry);
        proof {
            let shorter = all.subrange(0, k);
            let longer = all.subrange(0, k + 1);
            assert(longer.drop_last() =~= shorter);
            assert(longer.last() == bound);
            assert forall|other: Seq<char>| #[trigger]
                installs(called_by(commands@, other), longer, Seq::empty(), other) by {
                lemma_with(without, entry, other);
                assert(installs(called_by(before, other), shorter, Seq::empty(), other));
                if other != name@ {
                    assert(called_by(without, other) == called_by(before, other));
                    assert(last_bound(longer, other) == last_bound(shorter, other));
                    crate::command::definition::lemma_last_bound(shorter, other);
                }
            }
            lemma_with(without, entry, name@);
        }
    }
    assert(all.subrange(0, all.len() as int) =~= all);
    commands
}

/// Builds the install layer from every name the install files bind and every context type they
/// declare, in the order they are read.
///
/// A context type's own name is a command too: `\Staff` stands for the definition of the `Staff`
/// context. A binding of that name wins.
pub fn install_layer(bindings: Vec<Binding>, types: Vec<ContextType>, ly_dir: &str, id: u64) -> (r:
    Layer)
    ensures
        is_install_layer(r, bindings@, type_views(types@)),
        is_layer_name(ly_dir@, r.origin@),
        r.id == id,
{
    let ghost bound = bindings@;
    let ghost declared = type_views(types@);
    let mut commands = bind_all(bindings);
    let context_types = merge_types(types);
    let ghost merged = type_views(context_types@);
    let mut k: usize = 0;
    assert(merged.subrange(0, 0) =~= Seq::empty());
    while k < context_types.len()
        invariant
            k <= context_types@.len(),
            merged == type_views(context_types@),
            distinct_entries(commands@),
            forall|name: Seq<char>| #[trigger]
                installs(called_by(commands@, name), bound, merged.subrange(0, k as int), name),
        decreases context_types.len() - k,
    {
        let name = context_types[k].name.as_str();
        let ghost shorter = merged.subrange(0, k as int);
        let ghost longer = merged.subrange(0, k + 1);
        let ghost before = commands@;
        assert(merged[k as int] == context_types@[k as int]@);
        assert(longer.drop_last() =~= shorter);
        assert(longer.last().name == name@);
        let known = is_called(&commands, name);
        if !known {
            let entry = Entry { name: name.to_string(), command: Arc::new(bare_name(name)) };
            commands.push(entry);
            proof {
                lemma_with(before, entry, name@);
            }
            assert forall|other: Seq<char>| #[trigger]
                installs(called_by(commands@, other), bound, longer, other) by {
                lemma_with(before, entry, other);
                assert(installs(called_by(before, other), bound, shorter, other));
            }
        } else {
            assert forall|other: Seq<char>| #[trigger]
                installs(called_by(commands@, other), bound, longer, other) by {
                assert(installs(called_by(before, other), bound, shorter, other));
            }
        }
        k = k + 1;
    }
    assert(merged.subrange(0, k as int) =~= merged);
    let r = Layer {
        origin: Arc::new(origin(ly_dir)),
        commands,
        context_types,
        context_instances: Vec::new(),
        id,
    };
    assert forall|name: Seq<char>| #[trigger] installs(r.lookup(name), bound, merged, name) by {
        assert(r.lookup(name) == called_by(commands@, name));
        assert(installs(
            called_by(commands@, name),
            bound,
            merged.subrange(0, k as int),
            name,
        ));
    }
    r
}

/// Whether `entries` hold `name`.
fn is_called(entries: &Vec<Entry>, name: &str) -> (r: bool)
    ensures
        r == (called_by(entries@, name@) is Some),
{
    proof {
        crate::vocabulary::lemma_entry_at(entries@, name@);
    }
    let mut k: usize = 0;
    while k < entries.len()
        invariant
            k <= entries@.len(),
            forall|j: int| 0 <= j < k ==> (#[trigger] entries@[j]).name@ != name@,
            match crate::vocabulary::entry_at(entries@, name@) {
                Some(i) => 0 <= i < entries@.len() && entries@[i].name@ == name@,
                None => forall|i: int|
                    0 <= i < entries@.len() ==> (#[trigger] entries@[i]).name@ != name@,
            },
        decreases entries.len() - k,
    {
        if same(entries[k].name.as_str(), name) {
            return true;
        }
        k = k + 1;
    }
    false
}

/// Reads every name that a source binds.
pub fn read_bindings(tree: &SyntaxTree, src: &str) -> (r: Vec<Binding>)
    requires
        tree.wf(),
    ensures
        are_bindings(r@, bindings_of(tree.nodes@, src@)),
{
    let analysis = extract(tree, src);
    merge_bindings(tree, src, analysis.assignments)
}

proof fn lemma_last_bound_concat(earlier: Seq<Binding>, later: Seq<Binding>, name: Seq<char>)
    requires
        last_bound(later, name) is Some,
    ensures
        last_bound(earlier + later, name) == Some(earlier.len() + last_bound(later, name)->0),
        0 <= last_bound(later, name)->0 < later.len(),
    decreases later.len(),
{
    let all = earlier + later;
    assert(all.last() == later.last());
    if later.last().name@ != name {
        lemma_last_bound_concat(earlier, later.drop_last(), name);
        assert(all.drop_last() =~= earlier + later.drop_last());
    }
}

/// A later file wins over an earlier one: a name that both bind means what the later one says.
pub proof fn law_a_later_file_wins(
    layer: Layer,
    earlier: Seq<Binding>,
    later: Seq<Binding>,
    types: Seq<TypeView>,
    name: Seq<char>,
)
    requires
        is_install_layer(layer, earlier + later, types),
        last_bound(later, name) is Some,
    ensures
        layer.lookup(name) is Some,
        is_installed(layer.lookup(name)->0, later[last_bound(later, name)->0]),
{
    lemma_last_bound_concat(earlier, later, name);
    let merged = merged_types(types, types.len() as int);
    assert(installs(layer.lookup(name), earlier + later, merged, name));
}

/// Whether `trees` are what the sources parse to.
pub open spec fn all_parse(
    language: tree_sitter::Language,
    sources: Seq<String>,
    trees: Seq<Option<SyntaxTree>>,
) -> bool {
    trees.len() == sources.len() && forall|k: int|
        0 <= k < sources.len() ==> #[trigger] parses_to(language, sources[k]@, trees[k])
}

/// What the first `n` sources bind; one without a tree binds nothing.
pub open spec fn bound_in(sources: Seq<String>, trees: Seq<Option<SyntaxTree>>, n: int) -> Seq<
    BindingView,
>
    decreases n,
{
    if n <= 0 {
        Seq::empty()
    } else {
        bound_in(sources, trees, n - 1) + (match trees[n - 1] {
            Some(tree) => bindings_of(tree.nodes@, sources[n - 1]@),
            None => Seq::empty(),
        })
    }
}

/// What context types the first `n` sources declare.
pub open spec fn types_in(sources: Seq<String>, trees: Seq<Option<SyntaxTree>>, n: int) -> Seq<
    TypeView,
>
    decreases n,
{
    if n <= 0 {
        Seq::empty()
    } else {
        types_in(sources, trees, n - 1) + (match trees[n - 1] {
            Some(tree) => declared_types(
                tree.nodes@,
                sources[n - 1]@,
                tree.nodes@.len() as int,
            ),
            None => Seq::empty(),
        })
    }
}

pub open spec fn trees_wf(trees: Seq<Option<SyntaxTree>>) -> bool {
    forall|k: int| 0 <= k < trees.len() ==> ((#[trigger] trees[k]) is Some ==> trees[k]->0.wf())
}

fn append_bindings(out: &mut Vec<Binding>, more: Vec<Binding>, Ghost(before): Ghost<Seq<BindingView>>, Ghost(
    views,
): Ghost<Seq<BindingView>>)
    requires
        are_bindings(old(out)@, before),
        are_bindings(more@, views),
    ensures
        are_bindings(final(out)@, before + views),
{
    let ghost all = more@;
    assert(before + views.subrange(0, 0) =~= before);
    for one in it: more
        invariant
            it.seq() == all,
            are_bindings(all, views),
            are_bindings(out@, before + views.subrange(0, it.index() as int)),
    {
        let ghost k = it.index() as int;
        assert(crate::command::scheme::is_binding(all[k], views[k]));
        out.push(one);
        assert(before + views.subrange(0, k + 1) =~= (before + views.subrange(0, k)).push(
            views[k],
        ));
    }
    assert(views.subrange(0, all.len() as int) =~= views);
}

fn append_types(out: &mut Vec<ContextType>, more: Vec<ContextType>)
    ensures
        type_views(final(out)@) == type_views(old(out)@) + type_views(more@),
{
    let ghost before = type_views(out@);
    let ghost all = more@;
    assert(before =~= before + type_views(all.subrange(0, 0)));
    for one in it: more
        invariant
            it.seq() == all,
            type_views(out@) == before + type_views(all.subrange(0, it.index() as int)),
    {
        let ghost k = it.index() as int;
        let ghost last = type_views(out@);
        out.push(one);
        assert(type_views(out@) =~= last.push(one@));
        assert(type_views(all.subrange(0, k + 1)) =~= type_views(all.subrange(0, k)).push(one@));
        assert(type_views(out@) =~= before + type_views(all.subrange(0, k + 1)));
    }
    assert(all.subrange(0, all.len() as int) =~= all);
}

/// Builds the install layer from sources and what they parse to.
pub fn load_parsed(
    sources: &Vec<String>,
    trees: &Vec<Option<SyntaxTree>>,
    context_sources: &Vec<String>,
    context_trees: &Vec<Option<SyntaxTree>>,
    ly_dir: &str,
    id: u64,
) -> (r: Layer)
    requires
        trees@.len() == sources@.len(),
        context_trees@.len() == context_sources@.len(),
        trees_wf(trees@),
        trees_wf(context_trees@),
    ensures
        loads(
            r,
            bound_in(sources@, trees@, sources@.len() as int),
            types_in(context_sources@, context_trees@, context_sources@.len() as int),
        ),
        is_layer_name(ly_dir@, r.origin@),
        r.id == id,
{
    let mut bindings: Vec<Binding> = Vec::new();
    let mut k: usize = 0;
    while k < sources.len()
        invariant
            k <= sources@.len(),
            trees@.len() == sources@.len(),
            trees_wf(trees@),
            are_bindings(bindings@, bound_in(sources@, trees@, k as int)),
        decreases sources.len() - k,
    {
        match &trees[k] {
            Some(tree) => {
                assert(trees@[k as int]->0.wf());
                let found = read_bindings(tree, sources[k].as_str());
                append_bindings(
                    &mut bindings,
                    found,
                    Ghost(bound_in(sources@, trees@, k as int)),
                    Ghost(bindings_of(tree.nodes@, sources@[k as int]@)),
                );
            },
            None => {
                assert(bound_in(sources@, trees@, k + 1) =~= bound_in(
                    sources@,
                    trees@,
                    k as int,
                ));
            },
        }
        k = k + 1;
    }
    let mut types: Vec<ContextType> = Vec::new();
    assert(type_views(types@) =~= Seq::empty());
    let mut m: usize = 0;
    while m < context_sources.len()
        invariant
            m <= context_sources@.len(),
            context_trees@.len() == context_sources@.len(),
            trees_wf(context_trees@),
            type_views(types@) == types_in(context_sources@, context_trees@, m as int),
        decreases context_sources.len() - m,
    {
        match &context_trees[m] {
            Some(tree) => {
                assert(context_trees@[m as int]->0.wf());
                let found = read(tree, context_sources[m].as_str());
                append_types(&mut types, found);
            },
            None => {
                assert(types_in(context_sources@, context_trees@, m + 1) =~= types_in(
                    context_sources@,
                    context_trees@,
                    m as int,
                ));
            },
        }
        m = m + 1;
    }
    let ghost bound = bindings@;
    let layer = install_layer(bindings, types, ly_dir, id);
    assert(are_bindings(bound, bound_in(sources@, trees@, sources@.len() as int)));
    layer
}

/// Whether a layer is the one that bindings and types make, the bindings known by what they say.
pub open spec fn loads(layer: Layer, bound: Seq<BindingView>, types: Seq<TypeView>) -> bool {
    exists|bindings: Seq<Binding>| #[trigger]
        are_bindings(bindings, bound) && is_install_layer(layer, bindings, types)
}

/// Parses every source.
fn parse_all(sources: &Vec<String>, language: &tree_sitter::Language) -> (r: Vec<
    Option<SyntaxTree>,
>)
    ensures
        all_parse(*language, sources@, r@),
        trees_wf(r@),
{
    let mut out: Vec<Option<SyntaxTree>> = Vec::new();
    let mut k: usize = 0;
    while k < sources.len()
        invariant
            k <= sources@.len(),
            out@.len() == k,
            forall|j: int|
                0 <= j < k ==> #[trigger] parses_to(*language, sources@[j]@, out@[j]),
            trees_wf(out@),
        decreases sources.len() - k,
    {
        let tree = parse(language, sources[k].as_str());
        let ghost before = out@;
        out.push(tree);
        assert forall|j: int| 0 <= j < k + 1 implies #[trigger] parses_to(
            *language,
            sources@[j]@,
            out@[j],
        ) by {
            if j < k {
                assert(out@[j] == before[j]);
                assert(parses_to(*language, sources@[j]@, before[j]));
            }
        }
        assert forall|j: int| 0 <= j < out@.len() && (
        #[trigger] out@[j]) is Some implies out@[j]->0.wf() by {
            if j < k {
                assert(out@[j] == before[j]);
            }
        }
        k = k + 1;
    }
    out
}

/// Builds the install layer from the texts of the install files that could be read: those read for
/// commands and those read for context types, each in order. A name bound more than once keeps the
/// last binding, which is LilyPond's own resolution order.
pub fn load(
    sources: &Vec<String>,
    context_sources: &Vec<String>,
    ly_dir: &str,
    language: &tree_sitter::Language,
    id: u64,
) -> (r: Layer)
    ensures
        exists|trees: Seq<Option<SyntaxTree>>, context_trees: Seq<Option<SyntaxTree>>|
            {
                &&& #[trigger] all_parse(*language, sources@, trees)
                &&& #[trigger] all_parse(*language, context_sources@, context_trees)
                &&& loads(
                    r,
                    bound_in(sources@, trees, sources@.len() as int),
                    types_in(context_sources@, context_trees, context_sources@.len() as int),
                )
            },
        is_layer_name(ly_dir@, r.origin@),
        r.id == id,
{
    let trees = parse_all(sources, language);
    let context_trees = parse_all(context_sources, language);
    let layer = load_parsed(sources, &trees, context_sources, &context_trees, ly_dir, id);
    assert(all_parse(*language, sources@, trees@));
    assert(all_parse(*language, context_sources@, context_trees@));
    layer
}

} // verus!
