use ly_lsp::command::builtins::{CONTEXT_DOC, NEW_DOC};
use ly_lsp::command::calls::Commands;
use ly_lsp::command::collect::collect_calls;
use ly_lsp::command::parse::parse;
use ly_lsp::command::reader::Run;
use ly_lsp::command::{Arg, CommandCall, MusicContext, NoteEntry, Region};
use ly_lsp::command::specs::spec_for;
use ly_lsp::context;
use ly_lsp::document::{Document, NoteAnalysis};
use ly_lsp::grammar::{Row, tree_of};
use ly_lsp::note_names::{NoteLanguage, NoteName};
use ly_lsp::notes::Pitch;
use ly_lsp::scope::Base;
use ly_lsp::syntax::SyntaxTree;
use ly_lsp::vocabulary::{Layer, Scope};
use std::sync::Arc;

/// Reads LilyPond source into rows, with the shapes that the LilyPond grammar gives it.
#[allow(dead_code)]
struct Reader<'a> {
    src: &'a str,
    at: usize,
    rows: Vec<Row>,
}

#[allow(dead_code)]
impl<'a> Reader<'a> {
    fn rest(&self) -> &'a str {
        &self.src[self.at..]
    }

    fn peek(&self) -> Option<char> {
        self.rest().chars().next()
    }

    fn skip_white(&mut self) {
        while let Some(c) = self.peek() {
            if !c.is_whitespace() {
                break;
            }
            self.at += c.len_utf8();
        }
    }

    fn push(&mut self, kind: &str, named: bool, depth: u32) -> usize {
        self.rows.push(Row {
            kind: kind.to_string(),
            start: self.at,
            end: self.at,
            named,
            missing: false,
            error: kind == "ERROR",
            has_error: false,
            depth,
        });
        self.rows.len() - 1
    }

    fn close(&mut self, row: usize) {
        self.rows[row].end = self.at;
    }

    fn token(&mut self, kind: &str, named: bool, depth: u32, len: usize) {
        let row = self.push(kind, named, depth);
        self.at += len;
        self.close(row);
    }

    /// The length of the word at the start of `text`.
    fn word_len(text: &str) -> usize {
        let bytes = text.as_bytes();
        let mut n: usize = 0;
        loop {
            while n < bytes.len() && bytes[n].is_ascii_alphabetic() {
                n += 1;
            }
            let joined = n > 0
                && n + 1 < bytes.len()
                && (bytes[n] == b'-' || bytes[n] == b'_')
                && bytes[n + 1].is_ascii_alphabetic();
            if !joined {
                return n;
            }
            n += 1;
        }
    }

    fn string(&mut self, depth: u32, prefix: &str) {
        let rest = self.rest();
        let bytes = rest.as_bytes();
        let mut n: usize = 1;
        while n < bytes.len() && bytes[n] != b'"' {
            n += if bytes[n] == b'\\' { 2 } else { 1 };
        }
        if n >= bytes.len() {
            self.token("\"", false, depth, 1);
            return;
        }
        let end = self.at + n;
        let string = self.push(&format!("{prefix}string"), true, depth);
        self.token("\"", false, depth + 1, 1);
        while self.at < end {
            if self.peek() == Some('\\') {
                self.token(&format!("{prefix}escape_sequence"), true, depth + 1, 2);
            } else {
                let len = self.src[self.at..end].find('\\').unwrap_or(end - self.at);
                self.token(&format!("{prefix}string_fragment"), true, depth + 1, len);
            }
        }
        self.token("\"", false, depth + 1, 1);
        self.close(string);
    }

    fn scheme(&mut self, depth: u32) {
        self.skip_white();
        let rest = self.rest();
        if rest.starts_with('(') {
            let list = self.push("scheme_list", true, depth);
            self.token("(", false, depth + 1, 1);
            loop {
                self.skip_white();
                match self.peek() {
                    None => {
                        self.rows[list].kind = "ERROR".to_string();
                        self.rows[list].error = true;
                        break;
                    }
                    Some(')') => {
                        self.token(")", false, depth + 1, 1);
                        break;
                    }
                    Some(_) => self.scheme(depth + 1),
                }
            }
            self.close(list);
        } else if rest.starts_with('"') {
            self.string(depth, "scheme_");
        } else if rest.starts_with("#{") {
            let len = rest.find("#}").map_or(rest.len(), |n| n + 2);
            self.token("scheme_embedded_lilypond", true, depth, len);
        } else if rest.starts_with(';') {
            let len = rest.find('\n').unwrap_or(rest.len());
            self.token("comment", true, depth, len);
        } else if rest.starts_with('\'') {
            let quote = self.push("scheme_quote", true, depth);
            self.token("'", false, depth + 1, 1);
            self.scheme(depth + 1);
            self.close(quote);
        } else {
            let len = rest
                .find(|c: char| c.is_whitespace() || c == '(' || c == ')' || c == '"')
                .unwrap_or(rest.len())
                .max(1);
            let digits = rest[..len].chars().all(|c| c.is_ascii_digit() || c == '-');
            let kind = if digits { "scheme_number" } else { "scheme_symbol" };
            self.token(kind, true, depth, len);
        }
    }

    /// Everything from `open` to `close`, as one node.
    fn block(&mut self, kind: &str, depth: u32, open: &str, close: &str) {
        let block = self.push(kind, true, depth);
        self.token(open, false, depth + 1, open.len());
        self.row(depth + 1, Some(close));
        if self.rest().starts_with(close) {
            self.token(close, false, depth + 1, close.len());
        } else {
            self.rows[block].kind = "ERROR".to_string();
            self.rows[block].error = true;
        }
        self.close(block);
    }

    fn path(&mut self, depth: u32, end: usize) {
        let text = &self.src[self.at..end];
        if !text.contains('.') {
            self.token("symbol", true, depth, text.len());
            return;
        }
        let path = self.push("property_expression", true, depth);
        while self.at < end {
            let rest = &self.src[self.at..end];
            if rest.starts_with('.') {
                self.token("punctuation", true, depth + 1, 1);
            } else {
                let len = rest.find('.').unwrap_or(rest.len());
                self.token("symbol", true, depth + 1, len);
            }
        }
        self.close(path);
    }

    fn word(&mut self, depth: u32) {
        let rest = self.rest();
        let mut end: usize = Self::word_len(rest);
        while rest[end..].starts_with('.') && Self::word_len(&rest[end + 1..]) > 0 {
            end = end + 1 + Self::word_len(&rest[end + 1..]);
        }
        let behind = rest[end..].trim_start();
        let assigned = behind.starts_with('=')
            && !behind.starts_with("='")
            && !behind.starts_with("=,");
        let end = self.at + end;
        if assigned {
            let lhs = self.push("assignment_lhs", true, depth);
            self.path(depth + 1, end);
            self.close(lhs);
        } else {
            self.path(depth, end);
        }
    }

    fn command(&mut self, depth: u32) {
        let rest = self.rest();
        let len = 1 + Self::word_len(&rest[1..]);
        if len == 1 {
            let len = rest.chars().take(2).map(char::len_utf8).sum();
            self.token("escaped_word", true, depth, len);
            return;
        }
        let word = &rest[..len];
        let behind = rest[len..].trim_start();
        let typed = behind.starts_with(|c: char| c.is_ascii_alphabetic());
        if (word == "\\new" || word == "\\context") && typed {
            let context = self.push("named_context", true, depth);
            self.token("escaped_word", true, depth + 1, len);
            self.skip_white();
            let len = Self::word_len(self.rest());
            self.token("symbol", true, depth + 1, len);
            self.close(context);
            if self.rest().trim_start().starts_with('=') {
                self.skip_white();
                self.token("punctuation", true, depth + 1, 1);
                self.close(context);
                let behind = self.rest().trim_start();
                if behind.starts_with('"') {
                    self.skip_white();
                    self.string(depth + 1, "");
                    self.close(context);
                } else if Self::word_len(behind) > 0 {
                    self.skip_white();
                    let len = Self::word_len(self.rest());
                    self.token("symbol", true, depth + 1, len);
                    self.close(context);
                }
            }
        } else if word == "\\new" {
            let error = self.push("ERROR", true, depth);
            self.token("escaped_word", true, depth + 1, len);
            self.close(error);
        } else {
            self.token("escaped_word", true, depth, len);
        }
    }

    fn item(&mut self, depth: u32) {
        let rest = self.rest();
        let c = self.peek().unwrap();
        if rest.starts_with("%{") {
            let len = rest.find("%}").map_or(rest.len(), |n| n + 2);
            self.token("comment", true, depth, len);
        } else if c == '%' {
            let len = rest.find('\n').unwrap_or(rest.len());
            self.token("comment", true, depth, len);
        } else if c == '"' {
            self.string(depth, "");
        } else if c == '\\' {
            self.command(depth);
        } else if c == '{' {
            self.block("expression_block", depth, "{", "}");
        } else if rest.starts_with("<<") {
            self.block("parallel_music", depth, "<<", ">>");
        } else if c == '<' {
            self.block("chord", depth, "<", ">");
        } else if c == '}' {
            let error = self.push("ERROR", true, depth);
            self.token("}", false, depth + 1, 1);
            self.close(error);
        } else if c == '#' || c == '$' {
            let scheme = self.push("embedded_scheme", true, depth);
            self.token("embedded_scheme_prefix", true, depth + 1, 1);
            let text = self.push("embedded_scheme_text", true, depth + 1);
            self.scheme(depth + 2);
            self.close(text);
            self.close(scheme);
        } else if c.is_ascii_digit() {
            let len = rest.find(|c: char| !c.is_ascii_digit()).unwrap_or(rest.len());
            let behind = &rest[len..];
            if behind.starts_with('/') && behind[1..].starts_with(|c: char| c.is_ascii_digit()) {
                let more = behind[1..]
                    .find(|c: char| !c.is_ascii_digit())
                    .unwrap_or(behind.len() - 1);
                self.token("fraction", true, depth, len + 1 + more);
            } else {
                self.token("unsigned_integer", true, depth, len);
            }
        } else if c.is_ascii_alphabetic() {
            self.word(depth);
        } else {
            self.token("punctuation", true, depth, c.len_utf8());
        }
    }

    /// Everything up to `close`, or to the end.
    fn row(&mut self, depth: u32, close: Option<&str>) {
        loop {
            self.skip_white();
            if self.rest().is_empty() {
                return;
            }
            if close.is_some_and(|close| self.rest().starts_with(close)) {
                return;
            }
            self.item(depth);
        }
    }
}

/// The syntax tree of `src`.
#[allow(dead_code)]
fn tree(src: &str) -> SyntaxTree {
    let mut reader = Reader { src, at: 0, rows: Vec::new() };
    let root = reader.push("lilypond_program", true, 0);
    reader.row(1, None);
    reader.at = src.len();
    reader.close(root);
    let mut rows = reader.rows;
    for i in 0..rows.len() {
        let mut stop: usize = i + 1;
        while stop < rows.len() && rows[stop].depth > rows[i].depth {
            stop += 1;
        }
        let wrong = rows[i..stop].iter().any(|row| row.error || row.missing);
        rows[i].has_error = wrong;
    }
    tree_of(rows).expect("one tree")
}

/// The Dutch note names.
#[allow(dead_code)]
fn dutch() -> NoteLanguage {
    let mut notes: Vec<NoteName> = Vec::new();
    for (note_name, letter) in ["c", "d", "e", "f", "g", "a", "b"].iter().enumerate() {
        for (suffix, alteration) in [("", 0i8), ("is", 1), ("es", -1)] {
            notes.push(NoteName {
                text: format!("{letter}{suffix}"),
                note_name: note_name as u8,
                alteration,
            });
        }
    }
    NoteLanguage { name: "nederlands".to_string(), notes }
}

/// This library's own layers.
#[allow(dead_code)]
fn base() -> Base {
    Base::builtins(vec![Arc::new(dutch())])
}

/// The scope of a file that defines nothing.
#[allow(dead_code)]
fn builtins_only() -> Scope {
    base().for_document(&Vec::new())
}

/// Every call of `src`, in source order.
#[allow(dead_code)]
fn calls_of(tree: &SyntaxTree, src: &str, scope: &Scope) -> Commands {
    collect_calls(tree, src, &dutch(), scope)
}

/// The document of a file called `origin`, and the scope it makes on its own.
#[allow(dead_code)]
fn named(origin: &str, src: &str, id: u64) -> (Document, Scope) {
    let mut document =
        Document::from_parts(src.to_string(), tree(src), Arc::new(origin.to_string()), id);
    let scope = base().for_document(&vec![document.commands_defined.clone()]);
    let commands = calls_of(&document.tree, src, &scope);
    let notes = NoteAnalysis { events: Vec::new(), commands, problems: Vec::new() };
    document.refresh(&scope, notes);
    (document, scope)
}

#[allow(dead_code)]
fn document(src: &str) -> Document {
    named("untitled", src, 10).0
}

/// The place of the first command in a row, and the row.
fn first_command(tree: &SyntaxTree, row: &[usize]) -> Option<usize> {
    row.iter().position(|&n| {
        let kind = tree.nodes[n].kind.as_str();
        kind == "escaped_word" || kind == "named_context"
    })
}

/// The first call at the top level of `src`, and the place of the first node it leaves.
fn call_and_next(src: &str) -> Option<(CommandCall, usize)> {
    let tree = tree(src);
    let children = tree.children(0);
    let start = first_command(&tree, &children)?;
    let language = dutch();
    let run = Run { tree: &tree, children: &children, src, language: &language };
    parse(run, start, &builtins_only())
}

fn call(src: &str) -> Option<CommandCall> {
    call_and_next(src).map(|(call, _)| call)
}

/// The text of the node at place `n` of the top level of `src`.
fn top_level_text(src: &str, n: usize) -> &str {
    let tree = tree(src);
    let node = tree.children(0)[n];
    &src[tree.nodes[node].start..tree.nodes[node].end]
}

/// Every call of `src`, nested ones too.
fn commands(src: &str) -> Commands {
    calls_of(&tree(src), src, &builtins_only())
}

/// The body of the first call in the block that starts `src`.
fn body_of_the_first_call_inside(src: &str) -> String {
    let tree = tree(src);
    let block = tree.children(0)[0];
    let children = tree.children(block);
    let start = first_command(&tree, &children).unwrap();
    let language = dutch();
    let run = Run { tree: &tree, children: &children, src, language: &language };
    let (call, _) = parse(run, start, &builtins_only()).expect("a repeat call");
    let body = call.body().expect("a body");
    src[body.start..body.end].to_string()
}

fn parses_nothing(src: &str) -> bool {
    let tree = tree(src);
    let children = tree.children(0);
    let language = dutch();
    let run = Run { tree: &tree, children: &children, src, language: &language };
    parse(run, 0, &builtins_only()).is_none()
}

#[test]
fn mod_braceless_music_stops_at_the_next_event() {
    assert_eq!(body_of_the_first_call_inside("{ \\repeat unfold 2 c4 d8 }"), "c4");
}

#[test]
fn mod_an_unregistered_command_is_not_parsed() {
    assert!(parses_nothing("\\override NoteHead.color = #red"));
}

#[test]
fn resumes_after_a_bare_context_type_and_body() {
    let src = "\\new Staff { c } \\break";
    let (call, next) = call_and_next(src).expect("a new call");
    assert_eq!(call.name, "new");
    assert_eq!(top_level_text(src, next), "\\break");
}

#[test]
fn resumes_after_a_with_block_and_body() {
    let src = "\\new Staff \\with { fontSize = #-2 } { c } \\break";
    let (call, next) = call_and_next(src).expect("a new call");
    assert_eq!(call.args.len(), 3, "type, with block, music");
    assert_eq!(top_level_text(src, next), "\\break");
}

#[test]
fn a_users_own_alias_of_lyrics_reads_as_lyrics_too() {
    let context_src = "\\layout { \\context { \\name MyLyrics \\alias Lyrics } }";
    let layer = Arc::new(Layer {
        origin: Arc::new("test.ly".to_string()),
        commands: Vec::new(),
        context_types: context::read(&tree(context_src), context_src),
        context_instances: Vec::new(),
        id: 10,
    });
    let scope = base().for_document(&vec![layer]);

    let call = call("\\new MyLyrics { la }").expect("a new call");
    let context = call.cmd.music_context(
        &call,
        MusicContext::new(NoteEntry::Absolute, Region::NoteMusic, Arc::new(dutch())),
        &scope,
    );
    assert_eq!(context.region, Region::Lyrics);
}

#[test]
fn new_and_context_hover_shows_curated_doc_and_signature() {
    let scope = builtins_only();
    for (name, doc) in [("new", NEW_DOC), ("context", CONTEXT_DOC)] {
        let (cmd, _) = scope.get(name).expect("a reserved word");
        let synopsis = cmd.synopsis().expect("a synopsis");
        assert!(
            synopsis.contains(&format!("\\{name}")),
            "{synopsis:?} should show the \\{name} signature"
        );
        assert_eq!(cmd.documentation.as_deref(), Some(doc));
    }
}

/// Complete calls, of every signature shape.
const COMPLETE_CALLS: &[&str] = &[
    "\\repeat volta 2 { c }",
    "\\volta 1,2,3 { c }",
    "\\relative c' { c }",
    "\\key g \\major",
    "\\transpose c d { e }",
    "\\tempo \"Allegro\" 4 = 120",
    "\\clef bass",
    "\\set Staff.instrumentName = \"x\"",
    "\\lyricsto \"v\" { la }",
    "\\alternative { { a } { b } }",
    "\\notemode { c d }",
];

fn kinds(call: Option<CommandCall>) -> Vec<std::mem::Discriminant<Arg>> {
    call.map(|c| c.args.iter().map(std::mem::discriminant).collect()).unwrap_or_default()
}

#[test]
fn a_truncated_call_yields_a_prefix_of_the_complete_calls_arguments() {
    for full_src in COMPLETE_CALLS {
        let full_kinds = kinds(call(full_src));
        assert!(!full_kinds.is_empty(), "{full_src:?} is a complete call");
        for cut in 0..=full_src.len() {
            let truncated_src = &full_src[..cut];
            let truncated_kinds = kinds(call(truncated_src));
            assert!(
                full_kinds.starts_with(&truncated_kinds[..]),
                "{full_src:?} cut to {truncated_src:?} gave {truncated_kinds:?}, not a prefix of {full_kinds:?}",
            );
        }
        let keyword_len = full_src.find(' ').unwrap_or(full_src.len());
        assert!(kinds(call(&full_src[..keyword_len])).is_empty());
    }
}

#[test]
fn mod_repeat_has_kind_count_and_body() {
    let src = "\\repeat volta 2 { c d }";
    let call = call(src).expect("a repeat call");
    assert_eq!(call.name, "repeat");
    assert!(matches!(&call.args[0], Arg::BareWord { text, .. } if text == "volta"));
    assert!(matches!(call.args[1], Arg::Count { value: 2, .. }));
    assert!(matches!(call.args[2], Arg::Music { .. }));
    assert_eq!(
        &src[call.header().start..call.header().end],
        "\\repeat volta 2"
    );
    let body = call.body().expect("a body");
    assert_eq!(&src[body.start..body.end], "{ c d }");
}

#[test]
fn mod_unfold_is_a_repeat_kind_too() {
    let call = call("\\repeat unfold 4 { c }").expect("a repeat call");
    assert!(matches!(&call.args[0], Arg::BareWord { text, .. } if text == "unfold"));
    assert!(matches!(call.args[1], Arg::Count { value: 4, .. }));
}

#[test]
fn mod_volta_reads_a_number_list() {
    let call = call("\\volta 1,2,3 { c }").expect("a volta call");
    assert_eq!(call.name, "volta");
    let Arg::NumberList { values, .. } = &call.args[0] else {
        panic!("expected a number list, got {:?}", call.args[0]);
    };
    assert_eq!(values, &[1, 2, 3]);
}

#[test]
fn mod_volta_with_a_single_number() {
    let call = call("\\volta 2 { c }").expect("a volta call");
    assert!(matches!(&call.args[0], Arg::NumberList { values, .. } if values == &[2]));
}

#[test]
fn volta_half_typed_stops_at_the_missing_body() {
    let call = call("\\volta 1,2").expect("a partial volta call");
    assert_eq!(call.args.len(), 1);
    assert!(call.body().is_none());
}

#[test]
fn mod_alternative_takes_one_music_block() {
    let src = "\\alternative { { a } { b } }";
    let call = call(src).expect("an alternative call");
    assert_eq!(call.name, "alternative");
    assert_eq!(call.args.len(), 1);
    let body = call.body().expect("a body");
    assert_eq!(&src[body.start..body.end], "{ { a } { b } }");
}

#[test]
fn mod_music_can_be_a_braceless_note() {
    let src = "\\repeat percent 4 c2";
    let call = call(src).expect("a repeat call");
    assert!(matches!(call.args[1], Arg::Count { value: 4, .. }));
    let body = call.body().expect("a body");
    assert_eq!(&src[body.start..body.end], "c2");
}

#[test]
fn mod_music_can_be_a_braceless_chord() {
    let src = "\\repeat percent 4 <c e>2";
    let call = call(src).expect("a repeat call");
    let body = call.body().expect("a body");
    assert_eq!(&src[body.start..body.end], "<c e>2");
}

#[test]
fn mod_a_missing_argument_stops_consumption() {
    let call = call("\\repeat volta").expect("a partial repeat call");
    assert_eq!(call.args.len(), 1);
    assert!(call.body().is_none());
}

#[test]
fn relative_reads_its_reference_pitch() {
    let call = call("\\relative c' { c }").expect("a relative call");
    assert!(matches!(
        call.args[0],
        Arg::Pitch {
            pitch: Pitch {
                note_name: 0,
                octave: 0,
                ..
            },
            ..
        }
    ));
    assert!(matches!(call.args[1], Arg::Music { .. }));
}

#[test]
fn relative_with_no_reference_still_reads_its_body() {
    let call = call("\\relative { c }").expect("a relative call");
    assert_eq!(call.args.len(), 1);
    assert!(matches!(call.args[0], Arg::Music { .. }));
}

#[test]
fn fixed_reads_its_reference_pitch() {
    let call = call("\\fixed c' { c }").expect("a fixed call");
    assert!(matches!(call.args[0], Arg::Pitch { .. }));
}

#[test]
fn notemode_takes_one_music_block() {
    let call = call("\\notemode { c d }").expect("a notemode call");
    assert_eq!(call.args.len(), 1);
    assert!(matches!(call.args[0], Arg::Music { .. }));
}

#[test]
fn chordmode_takes_one_music_block() {
    let call = call("\\chordmode { c2:maj7 }").expect("a chordmode call");
    assert_eq!(call.args.len(), 1);
}

#[test]
fn drummode_takes_one_music_block() {
    let call = call("\\drummode { sn bd }").expect("a drummode call");
    assert_eq!(call.args.len(), 1);
}

#[test]
fn figuremode_takes_one_music_block() {
    let call = call("\\figuremode { <6> <5> }").expect("a figuremode call");
    assert_eq!(call.args.len(), 1);
}

#[test]
fn lyricmode_takes_one_music_block() {
    let call = call("\\lyricmode { la la }").expect("a lyricmode call");
    assert_eq!(call.args.len(), 1);
}

#[test]
fn addlyrics_takes_one_music_block() {
    let call = call("\\addlyrics { la la }").expect("an addlyrics call");
    assert_eq!(call.args.len(), 1);
}

#[test]
fn lyricsto_reads_an_optional_voice_name_then_its_body() {
    let call = call("\\lyricsto \"v\" { la }").expect("a lyricsto call");
    assert!(matches!(&call.args[0], Arg::ContextName { name, .. } if name == "v"));
    assert!(matches!(call.args[1], Arg::Music { .. }));
}

#[test]
fn lyricsto_with_no_voice_name_still_reads_its_body() {
    let call = call("\\lyricsto { la }").expect("a lyricsto call");
    assert_eq!(call.args.len(), 1);
    assert!(matches!(call.args[0], Arg::Music { .. }));
}

#[test]
fn markup_takes_one_music_block() {
    let call = call("\\markup { \"x\" }").expect("a markup call");
    assert_eq!(call.args.len(), 1);
}

#[test]
fn markuplist_takes_one_music_block() {
    let call = call("\\markuplist { \"x\" }").expect("a markuplist call");
    assert_eq!(call.args.len(), 1);
}

#[test]
fn header_takes_one_music_block() {
    let call = call("\\header { title = \"x\" }").expect("a header call");
    assert_eq!(call.args.len(), 1);
}

#[test]
fn paper_takes_one_music_block() {
    let call = call("\\paper { }").expect("a paper call");
    assert_eq!(call.args.len(), 1);
}

#[test]
fn layout_takes_one_music_block() {
    let call = call("\\layout { }").expect("a layout call");
    assert_eq!(call.args.len(), 1);
}

#[test]
fn midi_takes_one_music_block() {
    let call = call("\\midi { }").expect("a midi call");
    assert_eq!(call.args.len(), 1);
}

#[test]
fn with_takes_one_music_block() {
    let call = call("\\with { }").expect("a with call");
    assert_eq!(call.args.len(), 1);
}

#[test]
fn new_and_context_docs_name_their_own_parameters() {
    for doc in [NEW_DOC, CONTEXT_DOC] {
        for param in ["`type`", "`name`", "`music`"] {
            assert!(
                doc.contains(param),
                "expected {doc:?} to mention the parameter {param}"
            );
        }
    }
}

#[test]
fn new_reads_a_bare_context_type_and_body() {
    let call = call("\\new Staff { c }").expect("a new call");
    assert_eq!(call.name, "new");
    assert!(matches!(&call.args[0], Arg::ContextType { name, .. } if name == "Staff"));
    assert!(matches!(call.args[1], Arg::Music { .. }));
    assert_eq!(call.args.len(), 2);
}

#[test]
fn context_reads_a_bare_context_type_and_body() {
    let call = call("\\context Staff { c }").expect("a context call");
    assert_eq!(call.name, "context");
    assert!(matches!(&call.args[0], Arg::ContextType { name, .. } if name == "Staff"));
    assert!(matches!(call.args[1], Arg::Music { .. }));
    assert_eq!(call.args.len(), 2);
}

#[test]
fn new_reads_a_named_instance() {
    let call = call("\\new Staff = \"upper\" { c }").expect("a new call");
    assert!(matches!(&call.args[0], Arg::ContextType { name, .. } if name == "Staff"));
    let Arg::Group { args, .. } = &call.args[1] else {
        panic!(
            "expected the = name clause as a Group, got {:?}",
            call.args[1]
        );
    };
    assert!(matches!(args[0], Arg::Literal { .. }));
    assert!(matches!(&args[1], Arg::ContextName { name, .. } if name == "upper"));
    assert!(matches!(call.args[2], Arg::Music { .. }));
    assert_eq!(call.args.len(), 3);
}

#[test]
fn new_reads_a_with_block_before_its_body() {
    let src = "\\new Staff \\with { fontSize = #-2 } { c d e }";
    let call = call(src).expect("a new call");
    assert!(matches!(&call.args[0], Arg::ContextType { name, .. } if name == "Staff"));
    let Arg::Unknown { span } = &call.args[1] else {
        panic!(
            "expected the \\with block as an Unknown arg, got {:?}",
            call.args[1]
        );
    };
    assert_eq!(&src[span.start..span.end], "\\with { fontSize = #-2 }");
    assert!(matches!(call.args[2], Arg::Music { .. }));
    let body = call.body().expect("a body");
    assert_eq!(&src[body.start..body.end], "{ c d e }");
}

#[test]
fn new_reads_a_named_instance_and_a_with_block() {
    let src = "\\new Voice = \"vocals\" \\with { fontSize = #-2 } { c }";
    let call = call(src).expect("a new call");
    assert!(matches!(&call.args[0], Arg::ContextType { name, .. } if name == "Voice"));
    let Arg::Group { args, .. } = &call.args[1] else {
        panic!(
            "expected the = name clause as a Group, got {:?}",
            call.args[1]
        );
    };
    assert!(matches!(args[0], Arg::Literal { .. }));
    assert!(matches!(&args[1], Arg::ContextName { name, .. } if name == "vocals"));
    assert!(matches!(call.args[2], Arg::Unknown { .. }));
    assert!(matches!(call.args[3], Arg::Music { .. }));
    assert_eq!(call.args.len(), 4);
}

#[test]
fn context_reads_a_named_instance() {
    let call = call("\\context Voice = \"vocals\" { c }").expect("a context call");
    assert_eq!(call.name, "context");
    assert!(matches!(&call.args[0], Arg::ContextType { name, .. } if name == "Voice"));
    let Arg::Group { args, .. } = &call.args[1] else {
        panic!(
            "expected the = name clause as a Group, got {:?}",
            call.args[1]
        );
    };
    assert!(matches!(args[0], Arg::Literal { .. }));
    assert!(matches!(&args[1], Arg::ContextName { name, .. } if name == "vocals"));
    assert!(matches!(call.args[2], Arg::Music { .. }));
    assert_eq!(call.args.len(), 3);
}

#[test]
fn resumes_right_after_a_bare_named_context_node_when_nothing_else_is_consumed() {
    let src = "\\new Staff";
    let (call, next) = call_and_next(src).expect("a partial new call");
    assert_eq!(call.args.len(), 1);
    assert_eq!(next, 1, "start + 1, one past the sole named_context node");
}

#[test]
fn new_lyrics_reads_as_lyrics() {
    let call = call("\\new Lyrics { la }").expect("a new call");
    let context = call.cmd.music_context(
        &call,
        MusicContext::new(NoteEntry::Absolute, Region::NoteMusic, Arc::new(dutch())),
        &builtins_only(),
    );
    assert_eq!(context.region, Region::Lyrics);
}

#[test]
fn new_chord_names_still_reads_as_plain_non_note() {
    let call = call("\\new ChordNames { c }").expect("a new call");
    let context = call.cmd.music_context(
        &call,
        MusicContext::new(NoteEntry::Absolute, Region::NoteMusic, Arc::new(dutch())),
        &builtins_only(),
    );
    assert_eq!(context.region, Region::NonNote);
}

#[test]
fn new_staff_reads_as_ordinary_note_music() {
    let call = call("\\new Staff { c }").expect("a new call");
    let context = call.cmd.music_context(
        &call,
        MusicContext::new(NoteEntry::Absolute, Region::NoteMusic, Arc::new(dutch())),
        &builtins_only(),
    );
    assert_eq!(context.region, Region::NoteMusic);
}

#[test]
fn clef_reads_a_bare_name() {
    let call = call("\\clef bass").expect("a clef call");
    assert!(matches!(&call.args[0], Arg::String { text, .. } if text == "bass"));
}

#[test]
fn clef_reads_a_quoted_name() {
    let call = call("\\clef \"bass\"").expect("a clef call");
    assert!(matches!(&call.args[0], Arg::String { text, .. } if text == "bass"));
}

#[test]
fn set_reads_a_dotted_property_path() {
    let call = call("\\set Staff.instrumentName = \"x\"").expect("a set call");
    let Arg::PropertyPath { path, .. } = &call.args[0] else {
        panic!("expected a property path, got {:?}", call.args[0]);
    };
    assert_eq!(path, &["Staff", "instrumentName"]);
}

#[test]
fn unset_reads_an_undotted_property_path() {
    let call = call("\\unset instrumentName").expect("an unset call");
    let Arg::PropertyPath { path, .. } = &call.args[0] else {
        panic!("expected a property path, got {:?}", call.args[0]);
    };
    assert_eq!(path, &["instrumentName"]);
}

#[test]
fn language_reads_a_bare_name() {
    let call = call("\\language english").expect("a language call");
    assert!(matches!(&call.args[0], Arg::String { text, .. } if text == "english"));
}

#[test]
fn language_reads_a_quoted_name() {
    let call = call("\\language \"english\"").expect("a language call");
    assert!(matches!(&call.args[0], Arg::String { text, .. } if text == "english"));
}

#[test]
fn include_reads_a_quoted_path() {
    let call = call("\\include \"foo.ly\"").expect("an include call");
    assert!(matches!(&call.args[0], Arg::String { text, .. } if text == "foo.ly"));
}

#[test]
fn key_reads_a_tonic_and_a_mode_word() {
    let call = call("\\key g \\major").expect("a key call");
    assert!(matches!(
        call.args[0],
        Arg::Pitch {
            pitch: Pitch { note_name: 4, .. },
            ..
        }
    ));
    assert!(matches!(&call.args[1], Arg::Word { text, .. } if text == "major"));
}

#[test]
fn key_half_typed_stops_at_the_missing_mode() {
    let call = call("\\key g").expect("a partial key call");
    assert_eq!(call.args.len(), 1);
}

#[test]
fn transpose_reads_two_pitches_and_a_body() {
    let call = call("\\transpose c d { e }").expect("a transpose call");
    assert!(matches!(call.args[0], Arg::Pitch { .. }));
    assert!(matches!(call.args[1], Arg::Pitch { .. }));
    assert!(matches!(call.args[2], Arg::Music { .. }));
}

#[test]
fn transpose_half_typed_stops_at_the_missing_body() {
    let call = call("\\transpose c d").expect("a partial transpose call");
    assert_eq!(call.args.len(), 2);
    assert!(call.body().is_none());
}

#[test]
fn tempo_reads_a_duration_and_metronome_number() {
    let call = call("\\tempo 4 = 120").expect("a tempo call");
    assert_eq!(call.args.len(), 1);
    let Arg::Group { args, .. } = &call.args[0] else {
        panic!(
            "expected the duration/=/value clause as a Group, got {:?}",
            call.args[0]
        );
    };
    assert!(matches!(args[0], Arg::Count { value: 4, .. }));
    assert!(matches!(args[1], Arg::Literal { .. }));
    assert!(matches!(args[2], Arg::Count { value: 120, .. }));
}

#[test]
fn tempo_reads_text_only() {
    let call = call("\\tempo \"Allegro\"").expect("a tempo call");
    assert_eq!(call.args.len(), 1);
    assert!(matches!(&call.args[0], Arg::String { text, .. } if text == "Allegro"));
}

#[test]
fn tempo_reads_text_and_duration_together() {
    let call = call("\\tempo \"Allegro\" 4 = 120").expect("a tempo call");
    assert_eq!(call.args.len(), 2);
    assert!(matches!(&call.args[0], Arg::String { text, .. } if text == "Allegro"));
    let Arg::Group { args, .. } = &call.args[1] else {
        panic!(
            "expected the duration/=/value clause as a Group, got {:?}",
            call.args[1]
        );
    };
    assert!(matches!(args[0], Arg::Count { value: 4, .. }));
    assert!(matches!(args[1], Arg::Literal { .. }));
    assert!(matches!(args[2], Arg::Count { value: 120, .. }));
}

#[test]
fn tempo_duration_without_an_equals_sign_stops_there() {
    let call = call("\\tempo 4 120").expect("a tempo call");
    assert_eq!(call.args.len(), 1);
    let Arg::Group { args, .. } = &call.args[0] else {
        panic!("expected a one-piece Group, got {:?}", call.args[0]);
    };
    assert_eq!(args.len(), 1);
    assert!(matches!(args[0], Arg::Count { value: 4, .. }));
}

#[test]
fn call_site_on_the_keyword_itself() {
    let src = "\\repeat volta 2 { c }";
    let cmds = commands(src);
    let site = cmds.call_site_at(2, src).expect("a call site");
    assert_eq!(cmds.calls[site.call].name, "repeat");
    assert_eq!(site.index, 0);
}

#[test]
fn call_site_inside_a_parsed_argument() {
    let src = "\\repeat volta 2 { c }";
    let offset = src.find("volta").unwrap() + 2;
    let cmds = commands(src);
    let site = cmds.call_site_at(offset, src).expect("a call site");
    assert_eq!(cmds.calls[site.call].name, "repeat");
    assert_eq!(site.index, 0);
}

#[test]
fn call_site_in_whitespace_between_arguments() {
    let src = "\\repeat volta  2 { c }";
    let offset = src.find("volta").unwrap() + "volta".len() + 1;
    let cmds = commands(src);
    let site = cmds.call_site_at(offset, src).expect("a call site");
    assert_eq!(site.index, 1);
}

#[test]
fn call_site_just_past_a_half_typed_argument() {
    let src = "\\repeat volta ";
    let cmds = commands(src);
    let site = cmds.call_site_at(src.len(), src).expect("a call site");
    assert_eq!(cmds.calls[site.call].name, "repeat");
    assert_eq!(cmds.calls[site.call].args.len(), 1);
    assert_eq!(site.index, 1);
}

#[test]
fn call_site_right_after_the_bare_keyword() {
    let src = "\\repeat ";
    let cmds = commands(src);
    let site = cmds.call_site_at(src.len(), src).expect("a call site");
    assert_eq!(cmds.calls[site.call].name, "repeat");
    assert_eq!(site.index, 0);
}

#[test]
fn call_site_prefers_the_innermost_nested_call() {
    let src = "\\repeat volta 2 { \\volta 1 { c } }";
    let offset = src.find("\\volta 1").unwrap() + 2;
    let cmds = commands(src);
    let site = cmds.call_site_at(offset, src).expect("a call site");
    assert_eq!(cmds.calls[site.call].name, "volta");
}

#[test]
fn call_site_in_a_nested_calls_trailing_whitespace() {
    let src = "\\repeat volta 2 { \\volta }";
    let offset = src.find(" }").unwrap() + 1;
    let cmds = commands(src);
    let site = cmds.call_site_at(offset, src).expect("a call site");
    assert_eq!(cmds.calls[site.call].name, "volta");
    assert_eq!(site.index, 0);
}

#[test]
fn call_site_deep_in_a_music_body_is_none() {
    let src = "\\repeat volta 2 { c d e }";
    let offset = src.find(" d ").unwrap() + 1;
    assert!(commands(src).call_site_at(offset, src).is_none());
}

#[test]
fn call_site_at_the_start_of_the_body_still_resolves_to_the_call() {
    let src = "\\repeat volta 2 { c }";
    let offset = src.find('{').unwrap();
    let cmds = commands(src);
    let site = cmds.call_site_at(offset, src).expect("a call site");
    assert_eq!(cmds.calls[site.call].name, "repeat");
    assert_eq!(site.index, 2);
}

#[test]
fn call_site_none_outside_any_call() {
    let src = "c d e";
    assert!(commands(src).call_site_at(1, src).is_none());
}

#[test]
fn command_repeat_has_kind_count_and_body() {
    let src = "\\repeat volta 2 { c d }";
    let call = call(src).expect("a repeat call");
    assert_eq!(call.name, "repeat");
    assert!(matches!(&call.args[0], Arg::BareWord { text, .. } if text == "volta"));
    assert!(matches!(call.args[1], Arg::Count { value: 2, .. }));
    assert!(matches!(call.args[2], Arg::Music { .. }));
    assert_eq!(
        &src[call.header().start..call.header().end],
        "\\repeat volta 2"
    );
    let body = call.body().expect("a body");
    assert_eq!(&src[body.start..body.end], "{ c d }");
}

#[test]
fn command_unfold_is_a_repeat_kind_too() {
    let call = call("\\repeat unfold 4 { c }").expect("a repeat call");
    assert!(matches!(&call.args[0], Arg::BareWord { text, .. } if text == "unfold"));
    assert!(matches!(call.args[1], Arg::Count { value: 4, .. }));
}

#[test]
fn command_volta_reads_a_number_list() {
    let call = call("\\volta 1,2,3 { c }").expect("a volta call");
    assert_eq!(call.name, "volta");
    let Arg::NumberList { values, .. } = &call.args[0] else {
        panic!("expected a number list, got {:?}", call.args[0]);
    };
    assert_eq!(values, &[1, 2, 3]);
}

#[test]
fn command_volta_with_a_single_number() {
    let call = call("\\volta 2 { c }").expect("a volta call");
    assert!(matches!(&call.args[0], Arg::NumberList { values, .. } if values == &[2]));
}

#[test]
fn command_alternative_takes_one_music_block() {
    let src = "\\alternative { { a } { b } }";
    let call = call(src).expect("an alternative call");
    assert_eq!(call.name, "alternative");
    assert_eq!(call.args.len(), 1);
    let body = call.body().expect("a body");
    assert_eq!(&src[body.start..body.end], "{ { a } { b } }");
}

#[test]
fn command_music_can_be_a_braceless_note() {
    let src = "\\repeat percent 4 c2";
    let call = call(src).expect("a repeat call");
    assert!(matches!(call.args[1], Arg::Count { value: 4, .. }));
    let body = call.body().expect("a body");
    assert_eq!(&src[body.start..body.end], "c2");
}

#[test]
fn command_music_can_be_a_braceless_chord() {
    let src = "\\repeat percent 4 <c e>2";
    let call = call(src).expect("a repeat call");
    let body = call.body().expect("a body");
    assert_eq!(&src[body.start..body.end], "<c e>2");
}

#[test]
fn command_a_missing_argument_stops_consumption() {
    let call = call("\\repeat volta").expect("a partial repeat call");
    assert_eq!(call.args.len(), 1);
    assert!(call.body().is_none());
}

#[test]
fn command_braceless_music_stops_at_the_next_event() {
    assert_eq!(body_of_the_first_call_inside("{ \\repeat unfold 2 c4 d8 }"), "c4");
}

#[test]
fn command_an_unregistered_command_is_not_parsed() {
    assert!(spec_for("transpose").is_none());
}

#[test]
fn reads_the_type_and_the_quoted_name() {
    let call = call("\\change Staff = \"lower\"").expect("a change call");
    assert_eq!(call.name, "change");
    assert!(matches!(&call.args[0], Arg::ContextType { name, .. } if name == "Staff"));
    assert!(matches!(&call.args[1], Arg::ContextName { name, .. } if name == "lower"));
    assert_eq!(call.args.len(), 2);
}

#[test]
fn reads_a_bare_symbol_name_too() {
    let call = call("\\change Staff = lower").expect("a change call");
    assert!(matches!(&call.args[1], Arg::ContextName { name, .. } if name == "lower"));
}

#[test]
fn a_half_typed_change_with_no_name_yet_still_reads_the_type() {
    let call = call("\\change Staff").expect("a change call, however incomplete");
    assert!(matches!(&call.args[0], Arg::ContextType { name, .. } if name == "Staff"));
    assert_eq!(call.args.len(), 1);
}

#[test]
fn reads_a_bare_symbol_voice_name_too() {
    let call = call("\\lyricsto vocals { la }").expect("a lyricsto call");
    assert!(matches!(&call.args[0], Arg::ContextName { name, .. } if name == "vocals"));
}

#[test]
fn the_text_behind_lyricsto_is_read_as_lyrics() {
    let call = call("\\lyricsto \"v\" { la }").expect("a lyricsto call");
    let context = call.cmd.music_context(
        &call,
        MusicContext::new(NoteEntry::Absolute, Region::NoteMusic, Arc::new(dutch())),
        &builtins_only(),
    );
    assert_eq!(context.region, Region::Lyrics);
}

#[test]
fn music_context_is_non_note_not_the_trait_default() {
    let call = call("\\lyricsto \"v\" { la }").expect("a lyricsto call");
    let context = call.cmd.music_context(
        &call,
        MusicContext::new(NoteEntry::Absolute, Region::NoteMusic, Arc::new(dutch())),
        &builtins_only(),
    );
    assert_ne!(context.region, Region::NoteMusic);
}

#[test]
fn calls_are_collected_in_source_order() {
    let src = "\\relative c' { \\repeat volta 2 { \\clef bass } \\key c \\major }\n\\clef alto\n";
    let commands = collect_calls(&tree(src), src, &NoteLanguage::nederlands(), &builtins_only());
    let names: Vec<&str> = commands.calls.iter().map(|call| call.name.as_str()).collect();
    assert_eq!(names, vec!["relative", "repeat", "clef", "key", "clef"]);
    assert!(commands.calls.windows(2).all(|w| w[0].keyword.start < w[1].keyword.start));
}

#[test]
fn dutch_note_names_are_letters_and_syllables() {
    let dutch = NoteLanguage::nederlands();
    assert_eq!(dutch.name, "nederlands");
    assert_eq!(dutch.notes.len(), 39);
    assert_eq!(dutch.note("c"), Some((0, 0)));
    assert_eq!(dutch.note("fis"), Some((3, 1)));
    assert_eq!(dutch.note("gisis"), Some((4, 2)));
    assert_eq!(dutch.note("bes"), Some((6, -1)));
    assert_eq!(dutch.note("deses"), Some((1, -2)));
    assert_eq!(dutch.note("es"), Some((2, -1)));
    assert_eq!(dutch.note("ases"), Some((5, -2)));
    assert_eq!(dutch.note("h"), None);
    assert_eq!(dutch.naturals(), "c, d, e, f, g, a, b");
}

#[test]
fn a_quoted_argument_is_read_up_to_its_first_escape() {
    let call = call("\\lyricsto \"a \\\"b\\\" c\" { la }").expect("a lyricsto call");
    assert!(matches!(&call.args[0], Arg::ContextName { name, .. } if name == "a "));
}

#[test]
fn a_selected_language_holds_for_the_calls_behind_it() {
    let english = NoteLanguage {
        name: "english".to_string(),
        notes: vec![NoteName { text: "cs".to_string(), note_name: 0, alteration: 1 }],
    };
    let languages = vec![Arc::new(NoteLanguage::nederlands()), Arc::new(english)];
    let scope = Base::builtins(languages).for_document(&Vec::new());
    let tonics = |src: &str| -> Vec<Option<i8>> {
        collect_calls(&tree(src), src, &NoteLanguage::nederlands(), &scope)
            .calls
            .iter()
            .filter(|call| call.name == "key")
            .map(|call| match call.args.first() {
                Some(Arg::Pitch { pitch, .. }) => Some(pitch.alteration),
                _ => None,
            })
            .collect()
    };
    let key = "\\key cs \\major\n";
    assert_eq!(tonics(key), vec![None]);
    assert_eq!(tonics(&format!("{key}\\language \"english\"\n{key}")), vec![None, Some(1)]);
    assert_eq!(tonics(&format!("\\include \"english.ly\"\n{{ {key} }}\n{key}")), vec![Some(1); 2]);
    // A language selected in a block outlives it; one that nobody knows changes nothing.
    assert_eq!(tonics(&format!("{{ \\language \"english\" }}\n{key}")), vec![Some(1)]);
    assert_eq!(tonics(&format!("\\language \"klingon\"\n{key}")), vec![None]);
    let back = format!("\\language \"english\"\n{key}\\language \"nederlands\"\n{key}");
    assert_eq!(tonics(&back), vec![Some(1), None]);
}
