use ly_lsp::command::calls::Commands;
use ly_lsp::command::collect::collect_calls;
use ly_lsp::document::{Document, NoteAnalysis};
use ly_lsp::document_graph::{
    DocumentGraph, File, FileEdit, HighlightKind, Location, OpenFile, Target, document_highlights,
    goto_definition, name_under, references, rename, scope_for, target_at,
};
use ly_lsp::grammar::{Row, tree_of};
use ly_lsp::line_struct::LineIndex;
use ly_lsp::note_names::{NoteLanguage, NoteName};
use ly_lsp::protocol::{Position, Range};
use ly_lsp::scope::{Base, fingerprint};
use ly_lsp::syntax::SyntaxTree;
use ly_lsp::vocabulary::Scope;
use std::sync::Arc;

/// Reads LilyPond source into rows, with the shapes that the LilyPond grammar gives it.
#[allow(dead_code)]
struct Reader<'a> {
    src: &'a str,
    at: usize,
    rows: Vec<Row>,
}

#[allow(dead_code)]
impl<'a> Reader<'a> {
    fn rest(&self) -> &'a str {
        &self.src[self.at..]
    }

    fn peek(&self) -> Option<char> {
        self.rest().chars().next()
    }

    fn skip_white(&mut self) {
        while let Some(c) = self.peek() {
            if !c.is_whitespace() {
                break;
            }
            self.at += c.len_utf8();
        }
    }

    fn push(&mut self, kind: &str, named: bool, depth: u32) -> usize {
        self.rows.push(Row {
            kind: kind.to_string(),
            start: self.at,
            end: self.at,
            named,
            missing: false,
            error: kind == "ERROR",
            has_error: false,
            depth,
        });
        self.rows.len() - 1
    }

    fn close(&mut self, row: usize) {
        self.rows[row].end = self.at;
    }

    fn token(&mut self, kind: &str, named: bool, depth: u32, len: usize) {
        let row = self.push(kind, named, depth);
        self.at += len;
        self.close(row);
    }

    /// The length of the word at the start of `text`.
    fn word_len(text: &str) -> usize {
        let bytes = text.as_bytes();
        let mut n: usize = 0;
        loop {
            while n < bytes.len() && bytes[n].is_ascii_alphabetic() {
                n += 1;
            }
            let joined = n > 0
                && n + 1 < bytes.len()
                && (bytes[n] == b'-' || bytes[n] == b'_')
                && bytes[n + 1].is_ascii_alphabetic();
            if !joined {
                return n;
            }
            n += 1;
        }
    }

    fn string(&mut self, depth: u32, prefix: &str) {
        let rest = self.rest();
        let bytes = rest.as_bytes();
        let mut n: usize = 1;
        while n < bytes.len() && bytes[n] != b'"' {
            n += if bytes[n] == b'\\' { 2 } else { 1 };
        }
        if n >= bytes.len() {
            self.token("\"", false, depth, 1);
            return;
        }
        let end = self.at + n;
        let string = self.push(&format!("{prefix}string"), true, depth);
        self.token("\"", false, depth + 1, 1);
        while self.at < end {
            if self.peek() == Some('\\') {
                self.token(&format!("{prefix}escape_sequence"), true, depth + 1, 2);
            } else {
                let len = self.src[self.at..end].find('\\').unwrap_or(end - self.at);
                self.token(&format!("{prefix}string_fragment"), true, depth + 1, len);
            }
        }
        self.token("\"", false, depth + 1, 1);
        self.close(string);
    }

    fn scheme(&mut self, depth: u32) {
        self.skip_white();
        let rest = self.rest();
        if rest.starts_with('(') {
            let list = self.push("scheme_list", true, depth);
            self.token("(", false, depth + 1, 1);
            loop {
                self.skip_white();
                match self.peek() {
                    None => {
                        self.rows[list].kind = "ERROR".to_string();
                        self.rows[list].error = true;
                        break;
                    }
                    Some(')') => {
                        self.token(")", false, depth + 1, 1);
                        break;
                    }
                    Some(_) => self.scheme(depth + 1),
                }
            }
            self.close(list);
        } else if rest.starts_with('"') {
            self.string(depth, "scheme_");
        } else if rest.starts_with("#{") {
            let len = rest.find("#}").map_or(rest.len(), |n| n + 2);
            self.token("scheme_embedded_lilypond", true, depth, len);
        } else if rest.starts_with(';') {
            let len = rest.find('\n').unwrap_or(rest.len());
            self.token("comment", true, depth, len);
        } else if rest.starts_with('\'') {
            let quote = self.push("scheme_quote", true, depth);
            self.token("'", false, depth + 1, 1);
            self.scheme(depth + 1);
            self.close(quote);
        } else {
            let len = rest
                .find(|c: char| c.is_whitespace() || c == '(' || c == ')' || c == '"')
                .unwrap_or(rest.len())
                .max(1);
            let digits = rest[..len].chars().all(|c| c.is_ascii_digit() || c == '-');
            let kind = if digits { "scheme_number" } else { "scheme_symbol" };
            self.token(kind, true, depth, len);
        }
    }

    /// Everything from `open` to `close`, as one node.
    fn block(&mut self, kind: &str, depth: u32, open: &str, close: &str) {
        let block = self.push(kind, true, depth);
        self.token(open, false, depth + 1, open.len());
        self.row(depth + 1, Some(close));
        if self.rest().starts_with(close) {
            self.token(close, false, depth + 1, close.len());
        } else {
            self.rows[block].kind = "ERROR".to_string();
            self.rows[block].error = true;
        }
        self.close(block);
    }

    fn path(&mut self, depth: u32, end: usize) {
        let text = &self.src[self.at..end];
        if !text.contains('.') {
            self.token("symbol", true, depth, text.len());
            return;
        }
        let path = self.push("property_expression", true, depth);
        while self.at < end {
            let rest = &self.src[self.at..end];
            if rest.starts_with('.') {
                self.token("punctuation", true, depth + 1, 1);
            } else {
                let len = rest.find('.').unwrap_or(rest.len());
                self.token("symbol", true, depth + 1, len);
            }
        }
        self.close(path);
    }

    fn word(&mut self, depth: u32) {
        let rest = self.rest();
        let mut end: usize = Self::word_len(rest);
        while rest[end..].starts_with('.') && Self::word_len(&rest[end + 1..]) > 0 {
            end = end + 1 + Self::word_len(&rest[end + 1..]);
        }
        let behind = rest[end..].trim_start();
        let assigned = behind.starts_with('=')
            && !behind.starts_with("='")
            && !behind.starts_with("=,");
        let end = self.at + end;
        if assigned {
            let lhs = self.push("assignment_lhs", true, depth);
            self.path(depth + 1, end);
            self.close(lhs);
        } else {
            self.path(depth, end);
        }
    }

    fn command(&mut self, depth: u32) {
        let rest = self.rest();
        let len = 1 + Self::word_len(&rest[1..]);
        if len == 1 {
            let len = rest.chars().take(2).map(char::len_utf8).sum();
            self.token("escaped_word", true, depth, len);
            return;
        }
        let word = &rest[..len];
        let behind = rest[len..].trim_start();
        let typed = behind.starts_with(|c: char| c.is_ascii_alphabetic());
        if (word == "\\new" || word == "\\context") && typed {
            let context = self.push("named_context", true, depth);
            self.token("escaped_word", true, depth + 1, len);
            self.skip_white();
            let len = Self::word_len(self.rest());
            self.token("symbol", true, depth + 1, len);
            self.close(context);
            if self.rest().trim_start().starts_with('=') {
                self.skip_white();
                self.token("punctuation", true, depth + 1, 1);
                self.close(context);
                let behind = self.rest().trim_start();
                if behind.starts_with('"') {
                    self.skip_white();
                    self.string(depth + 1, "");
                    self.close(context);
                } else if Self::word_len(behind) > 0 {
                    self.skip_white();
                    let len = Self::word_len(self.rest());
                    self.token("symbol", true, depth + 1, len);
                    self.close(context);
                }
            }
        } else if word == "\\new" {
            let error = self.push("ERROR", true, depth);
            self.token("escaped_word", true, depth + 1, len);
            self.close(error);
        } else {
            self.token("escaped_word", true, depth, len);
        }
    }

    fn item(&mut self, depth: u32) {
        let rest = self.rest();
        let c = self.peek().unwrap();
        if rest.starts_with("%{") {
            let len = rest.find("%}").map_or(rest.len(), |n| n + 2);
            self.token("comment", true, depth, len);
        } else if c == '%' {
            let len = rest.find('\n').unwrap_or(rest.len());
            self.token("comment", true, depth, len);
        } else if c == '"' {
            self.string(depth, "");
        } else if c == '\\' {
            self.command(depth);
        } else if c == '{' {
            self.block("expression_block", depth, "{", "}");
        } else if rest.starts_with("<<") {
            self.block("parallel_music", depth, "<<", ">>");
        } else if c == '<' {
            self.block("chord", depth, "<", ">");
        } else if c == '}' {
            let error = self.push("ERROR", true, depth);
            self.token("}", false, depth + 1, 1);
            self.close(error);
        } else if c == '#' || c == '$' {
            let scheme = self.push("embedded_scheme", true, depth);
            self.token("embedded_scheme_prefix", true, depth + 1, 1);
            let text = self.push("embedded_scheme_text", true, depth + 1);
            self.scheme(depth + 2);
            self.close(text);
            self.close(scheme);
        } else if c.is_ascii_digit() {
            let len = rest.find(|c: char| !c.is_ascii_digit()).unwrap_or(rest.len());
            let behind = &rest[len..];
            if behind.starts_with('/') && behind[1..].starts_with(|c: char| c.is_ascii_digit()) {
                let more = behind[1..]
                    .find(|c: char| !c.is_ascii_digit())
                    .unwrap_or(behind.len() - 1);
                self.token("fraction", true, depth, len + 1 + more);
            } else {
                self.token("unsigned_integer", true, depth, len);
            }
        } else if c.is_ascii_alphabetic() {
            self.word(depth);
        } else {
            self.token("punctuation", true, depth, c.len_utf8());
        }
    }

    /// Everything up to `close`, or to the end.
    fn row(&mut self, depth: u32, close: Option<&str>) {
        loop {
            self.skip_white();
            if self.rest().is_empty() {
                return;
            }
            if close.is_some_and(|close| self.rest().starts_with(close)) {
                return;
            }
            self.item(depth);
        }
    }
}

/// The syntax tree of `src`.
#[allow(dead_code)]
fn tree(src: &str) -> SyntaxTree {
    let mut reader = Reader { src, at: 0, rows: Vec::new() };
    let root = reader.push("lilypond_program", true, 0);
    reader.row(1, None);
    reader.at = src.len();
    reader.close(root);
    let mut rows = reader.rows;
    for i in 0..rows.len() {
        let mut stop: usize = i + 1;
        while stop < rows.len() && rows[stop].depth > rows[i].depth {
            stop += 1;
        }
        let wrong = rows[i..stop].iter().any(|row| row.error || row.missing);
        rows[i].has_error = wrong;
    }
    tree_of(rows).expect("one tree")
}

/// The Dutch note names.
#[allow(dead_code)]
fn dutch() -> NoteLanguage {
    let mut notes: Vec<NoteName> = Vec::new();
    for (note_name, letter) in ["c", "d", "e", "f", "g", "a", "b"].iter().enumerate() {
        for (suffix, alteration) in [("", 0i8), ("is", 1), ("es", -1)] {
            notes.push(NoteName {
                text: format!("{letter}{suffix}"),
                note_name: note_name as u8,
                alteration,
            });
        }
    }
    NoteLanguage { name: "nederlands".to_string(), notes }
}

/// This library's own layers.
#[allow(dead_code)]
fn base() -> Base {
    Base::builtins(vec![Arc::new(dutch())])
}

/// The scope of a file that defines nothing.
#[allow(dead_code)]
fn builtins_only() -> Scope {
    base().for_document(&Vec::new())
}

/// Every call of `src`, in source order.
#[allow(dead_code)]
fn calls_of(tree: &SyntaxTree, src: &str, scope: &Scope) -> Commands {
    collect_calls(tree, src, &dutch(), scope)
}

/// The document of a file called `origin`, and the scope it makes on its own.
#[allow(dead_code)]
fn named(origin: &str, src: &str, id: u64) -> (Document, Scope) {
    let mut document =
        Document::from_parts(src.to_string(), tree(src), Arc::new(origin.to_string()), id);
    let scope = base().for_document(&vec![document.commands_defined.clone()]);
    let commands = calls_of(&document.tree, src, &scope);
    let notes = NoteAnalysis { events: Vec::new(), commands, problems: Vec::new() };
    document.refresh(&scope, notes);
    (document, scope)
}

#[allow(dead_code)]
fn document(src: &str) -> Document {
    named("untitled", src, 10).0
}

/// The files of a workspace, by name, as one document each.
fn workspace(files: &[(&str, &str)]) -> Vec<File> {
    files
        .iter()
        .enumerate()
        .map(|(n, (name, src))| File {
            uri: name.to_string(),
            document: Arc::new(Document::from_parts(
                src.to_string(),
                tree(src),
                Arc::new(name.to_string()),
                10 + n as u64,
            )),
        })
        .collect()
}

/// The files as an open document sees them: itself, then what it includes, each analysed in the
/// scope that this makes.
fn opened(files: &[(&str, &str)]) -> Vec<File> {
    let scope = scope_for(&base(), &workspace(files));
    files
        .iter()
        .enumerate()
        .map(|(n, (name, src))| {
            let origin = Arc::new(name.to_string());
            let mut document =
                Document::from_parts(src.to_string(), tree(src), origin, 10 + n as u64);
            let commands = calls_of(&document.tree, src, &scope);
            document.refresh(
                &scope,
                NoteAnalysis { events: Vec::new(), commands, problems: Vec::new() },
            );
            File { uri: name.to_string(), document: Arc::new(document) }
        })
        .collect()
}

/// The one document that is open, the first of `files`.
fn the_open_one(files: &[(&str, &str)]) -> Vec<OpenFile> {
    let first = opened(files).remove(0);
    vec![OpenFile {
        uri: first.uri,
        document: first.document,
        closure: files.iter().map(|(name, _)| name.to_string()).collect(),
    }]
}

fn definitions_at(files: &[(&str, &str)], position: Position) -> Vec<Location> {
    let opened = opened(files);
    let target = target_at(&opened[0].document, position);
    goto_definition(&target, &opened, files[0].0)
}

fn references_at(files: &[(&str, &str)], position: Position, declared: bool) -> Vec<Location> {
    let opened = opened(files);
    let target = name_under(&opened[0].document, position);
    references(&target, &opened, &the_open_one(files), files[0].0, declared)
}

/// The position just inside the first `needle`.
fn inside(src: &str, needle: &str) -> Position {
    let offset = src.find(needle).expect("needle must occur in src") + 1;
    LineIndex::new(src).position_at(offset)
}

/// The position just inside the first `needle` behind `anchor`.
fn inside_after(src: &str, anchor: &str, needle: &str) -> Position {
    let from = src.find(anchor).expect("anchor must occur in src");
    let offset = from + src[from..].find(needle).expect("needle after anchor") + 1;
    LineIndex::new(src).position_at(offset)
}

fn start_of(src: &str, range: Range) -> usize {
    LineIndex::new(src).offset_at(range.start).unwrap()
}

/// The source text that the ranges cover.
fn covered(src: &str, ranges: Vec<Range>) -> Vec<&str> {
    let lines = LineIndex::new(src);
    ranges
        .into_iter()
        .map(|range| {
            let start = lines.offset_at(range.start).unwrap();
            let end = lines.offset_at(range.end).unwrap();
            &src[start..end]
        })
        .collect()
}

fn ranges(locations: &[Location]) -> Vec<Range> {
    locations.iter().map(|location| location.range).collect()
}

/// A text after edits.
fn rewritten(src: &str, edits: &[FileEdit]) -> String {
    let index = LineIndex::new(src);
    let mut spans: Vec<(usize, usize, &str)> = edits
        .iter()
        .map(|e| {
            let start = index.offset_at(e.edit.range.start).expect("a start offset");
            let end = index.offset_at(e.edit.range.end).expect("an end offset");
            (start, end, e.edit.new_text.as_str())
        })
        .collect();
    spans.sort();
    let mut out = src.to_string();
    for (start, end, text) in spans.into_iter().rev() {
        out.replace_range(start..end, text);
    }
    out
}

#[test]
fn a_document_is_named_for_its_file() {
    let mut graph = DocumentGraph::new();
    let opened = graph.open(
        "file:///my%20score.ly".to_string(),
        "[1]".to_string(),
        Arc::new("my score.ly".to_string()),
        &tree_sitter_json::LANGUAGE.into(),
        10,
    );
    assert!(opened);
    let document = graph.document("file:///my%20score.ly").expect("open");
    assert_eq!(document.commands_defined.origin.as_str(), "my score.ly");
}

#[test]
fn a_shared_include_is_read_once_for_every_file_that_includes_it() {
    let shared = workspace(&[("shared.ily", "myFunc = #(define-music-function (m) (ly:music?) m)\n")]);
    let scores = workspace(&[
        ("one.ly", "\\include \"shared.ily\"\n\\myFunc { c4 }\n"),
        ("two.ly", "\\include \"shared.ily\"\n\\myFunc { d4 }\n"),
    ]);
    let of = |n: usize| {
        let seen = vec![
            File { uri: scores[n].uri.clone(), document: scores[n].document.clone() },
            File { uri: shared[0].uri.clone(), document: shared[0].document.clone() },
        ];
        fingerprint(&scope_for(&base(), &seen))
    };
    assert_eq!(of(0), of(1));
}

#[test]
fn an_included_files_context_instance_is_visible_to_the_including_document() {
    let files = workspace(&[
        (
            "score.ly",
            "\\include \"voices.ily\"\n{ \\melody \\lyricsto \"vocals\" { la } }\n",
        ),
        ("voices.ily", "melody = { \\new Voice = \"vocals\" { c } }\n"),
    ]);
    let scope = scope_for(&base(), &files);
    let known = scope.get_context_instance("vocals").expect("vocals, of the included file");
    assert_eq!(known.created_as.as_deref(), Some("Voice"));
}

#[test]
fn editing_an_include_changes_the_scope_of_the_files_that_include_it() {
    let score = "\\include \"shared.ily\"\n\\myFunc { c4 }\n";
    let mut files = workspace(&[
        ("score.ly", score),
        ("shared.ily", "myFunc = #(define-music-function (m) (ly:music?) m)\n"),
    ]);
    let before = fingerprint(&scope_for(&base(), &files));
    let edited = "myFunc = #(define-music-function (a m) (ly:pitch? ly:music?) m)\n";
    files[1].document = Arc::new(Document::from_parts(
        edited.to_string(),
        tree(edited),
        Arc::new("shared.ily".to_string()),
        12,
    ));
    assert_ne!(before, fingerprint(&scope_for(&base(), &files)));
}

#[test]
fn rename_rewrites_a_definition_bound_inside_scheme() {
    let source =
        "#(define-public myFunc (define-music-function (m) (ly:music?) m))\n\\myFunc { c4 }\n";
    let files = [("score.ly", source)];
    let Target::Symbol(name, _) = target_at(&opened(&files)[0].document, Position::new(1, 2))
    else {
        panic!("expected a symbol");
    };
    let edits = rename(&name, "newFunc", &opened(&files), &the_open_one(&files), "score.ly")
        .expect("a rename of a user-defined function");
    assert_eq!(
        rewritten(source, &edits),
        "#(define-public newFunc (define-music-function (m) (ly:music?) m))\n\\newFunc { c4 }\n"
    );
}

#[test]
fn a_file_with_no_definitions_stacks_no_layers() {
    let files = workspace(&[("plain.ly", "{ c d e }\n")]);
    assert_eq!(fingerprint(&scope_for(&base(), &files)), fingerprint(&builtins_only()));
}

#[test]
fn goto_definition_from_new_finds_a_context_type_declared_in_the_same_file() {
    let src = "\\layout { \\context { \\name MyStaff } }\n{ \\new MyStaff { c } }\n";
    let locations = definitions_at(&[("score.ly", src)], inside(src, "MyStaff {"));
    assert_eq!(locations.len(), 1);
    assert_eq!(locations[0].uri, "score.ly");
    assert_eq!(covered(src, ranges(&locations)), vec!["MyStaff"]);
    assert!(start_of(src, locations[0].range) < src.find("{ \\new").unwrap());
}

#[test]
fn goto_definition_from_new_finds_a_context_type_declared_in_an_included_file() {
    let src = "\\include \"types.ily\"\n{ \\new MyStaff { c } }\n";
    let files =
        [("score.ly", src), ("types.ily", "\\layout { \\context { \\name MyStaff } }\n")];
    let locations = definitions_at(&files, inside(src, "MyStaff {"));
    assert_eq!(locations.len(), 1);
    assert_eq!(locations[0].uri, "types.ily");
}

#[test]
fn goto_definition_from_lyricsto_finds_the_new_that_created_the_instance() {
    let src = "{ \\new Voice = \"vocals\" { c } \\lyricsto \"vocals\" { la } }\n";
    let locations =
        definitions_at(&[("score.ly", src)], inside_after(src, "\\lyricsto", "vocals"));
    assert_eq!(covered(src, ranges(&locations)), vec!["vocals"]);
    assert!(start_of(src, locations[0].range) < src.find("\\lyricsto").unwrap());
}

#[test]
fn find_references_on_a_context_type_finds_every_new_that_names_it() {
    let src = "\\layout { \\context { \\name MyStaff } }\n{ \\new MyStaff { c } \\context MyStaff { d } }\n";
    let files = [("score.ly", src)];
    let locations = references_at(&files, inside(src, "MyStaff {"), false);
    assert_eq!(covered(src, ranges(&locations)), vec!["MyStaff", "MyStaff"]);
    assert_eq!(references_at(&files, inside(src, "MyStaff {"), true).len(), 3);
}

#[test]
fn find_references_on_a_context_type_reaches_an_including_file() {
    let src = "\\include \"types.ily\"\n{ \\new MyStaff { c } }\n";
    let files =
        [("score.ly", src), ("types.ily", "\\layout { \\context { \\name MyStaff } }\n")];
    let locations = references_at(&files, inside(src, "MyStaff {"), false);
    assert_eq!(locations.len(), 1);
    assert_eq!(locations[0].uri, "score.ly");
}

#[test]
fn find_references_on_a_context_instance_skips_the_new_that_created_it() {
    let src = "{ \\new Voice = \"vocals\" { c } \\lyricsto \"vocals\" { la } \\change Voice = \"vocals\" }\n";
    let files = [("score.ly", src)];
    let at = inside_after(src, "\\lyricsto", "vocals");
    let locations = references_at(&files, at, false);
    assert_eq!(covered(src, ranges(&locations)), vec!["vocals", "vocals"]);
    for location in &locations {
        assert!(start_of(src, location.range) > src.find("\\lyricsto").unwrap());
    }
    assert_eq!(references_at(&files, at, true).len(), 3);
}

#[test]
fn a_variable_of_the_same_name_is_not_confused_with_a_context_type() {
    let src = "MyStaff = { c }\n\\layout { \\context { \\name MyStaff } }\n{ \\new MyStaff { \\MyStaff } }\n";
    let files = [("score.ly", src)];
    let from_context = references_at(&files, inside(src, "MyStaff {"), false);
    assert_eq!(covered(src, ranges(&from_context)), vec!["MyStaff"]);
    assert_eq!(
        start_of(src, from_context[0].range),
        src.find("\\new MyStaff").unwrap() + "\\new ".len()
    );
    let from_command = references_at(&files, inside(src, "\\MyStaff"), false);
    assert_eq!(covered(src, ranges(&from_command)), vec!["\\MyStaff"]);
}

#[test]
fn highlighting_a_context_type_marks_its_declaration_and_its_uses() {
    let src = "\\layout { \\context { \\name MyStaff } }\n{ \\new MyStaff { c } }\n";
    let highlights = document_highlights(&document(src), inside(src, "MyStaff {"));
    let kinds: Vec<HighlightKind> = highlights.iter().map(|h| h.kind).collect();
    assert_eq!(kinds, vec![HighlightKind::Write, HighlightKind::Read]);
}

#[test]
fn highlighting_a_context_instance_covers_each_name_once() {
    let src = "{ \\new Voice = \"vocals\" { c } \\lyricsto \"vocals\" { la } }\n";
    let highlights =
        document_highlights(&document(src), inside_after(src, "\\lyricsto", "vocals"));
    assert_eq!(highlights.len(), 2);
    assert_ne!(highlights[0].range, highlights[1].range);
    let ranges: Vec<Range> = highlights.iter().map(|h| h.range).collect();
    assert_eq!(covered(src, ranges), vec!["vocals", "vocals"]);
}

#[test]
fn goto_definition_on_a_builtin_context_type_finds_nothing() {
    let src = "{ \\new Staff { c } }\n";
    assert!(definitions_at(&[("score.ly", src)], inside(src, "Staff {")).is_empty());
}

#[test]
fn an_unrelated_file_that_reuses_a_name_is_left_out() {
    let src = "foo = { c }\n{ \\foo }\n";
    let files = [("score.ly", src)];
    let mut open = the_open_one(&files);
    open.extend(the_open_one(&[("other.ly", "{ \\foo \\foo }\n")]));
    let target = name_under(&opened(&files)[0].document, inside(src, "\\foo"));
    let locations = references(&target, &opened(&files), &open, "score.ly", false);
    assert_eq!(locations.len(), 1);
    assert_eq!(locations[0].uri, "score.ly");
}

#[test]
fn the_nearest_definition_of_a_name_is_the_one_it_means() {
    let files = workspace(&[
        ("score.ly", "\\include \"inc.ily\"\nfoo = { c }\n"),
        ("inc.ily", "foo = { d }\nbar = { e }\nclef = { f }\nrepeat = { g }\n"),
    ]);
    let scope = scope_for(&base(), &files);
    let origin = |name: &str| scope.get(name).expect("known").1.to_string();
    assert_eq!(origin("foo"), "score.ly");
    assert_eq!(origin("bar"), "inc.ily");
    assert_eq!(origin("clef"), "inc.ily");
    assert_eq!(origin("repeat"), "built-in");
    assert_eq!(origin("key"), "built-in");
}
