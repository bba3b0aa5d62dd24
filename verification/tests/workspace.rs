use ly_lsp::command::behaviour::selected;
use ly_lsp::command::calls::Commands;
use ly_lsp::command::collect::collect_calls;
use ly_lsp::command::parse::parse as parse_call;
use ly_lsp::command::reader::Run;
use ly_lsp::command::{MusicContext, NoteEntry, Region};
use ly_lsp::command_assist::ItemKind;
use ly_lsp::document::{Change, Document, NoteAnalysis};
use ly_lsp::document_graph::{
    DocumentGraph, File, LoadVocabularyError, OpenFile, Target, diagnostics, references, rename,
    resolve_include, target_at,
};
use ly_lsp::grammar::{Row, TextPoint, parse, point_at, tree_of};
use ly_lsp::install::{context_file_names, file_names, load_parsed, origin, version};
use ly_lsp::lexer::tokenise;
use ly_lsp::line_struct::{LineIndex, Span};
use ly_lsp::note_names::{NoteLanguage, NoteName};
use ly_lsp::notes::{Pitch, Problem};
use ly_lsp::protocol::{Position, Range, Severity};
use ly_lsp::queries::start_of_file;
use ly_lsp::scope::{Base, fingerprint, visible};
use ly_lsp::syntax::SyntaxTree;
use ly_lsp::typing::{keyword_awaiting_its_first_argument, word_being_typed};
use ly_lsp::vocabulary::Scope;
use ly_lsp::walk::Walk;
use std::sync::Arc;

/// Reads LilyPond source into rows, with the shapes that the LilyPond grammar gives it.
#[allow(dead_code)]
struct Reader<'a> {
    src: &'a str,
    at: usize,
    rows: Vec<Row>,
}

#[allow(dead_code)]
impl<'a> Reader<'a> {
    fn rest(&self) -> &'a str {
        &self.src[self.at..]
    }

    fn peek(&self) -> Option<char> {
        self.rest().chars().next()
    }

    fn skip_white(&mut self) {
        while let Some(c) = self.peek() {
            if !c.is_whitespace() {
                break;
            }
            self.at += c.len_utf8();
        }
    }

    fn push(&mut self, kind: &str, named: bool, depth: u32) -> usize {
        self.rows.push(Row {
            kind: kind.to_string(),
            start: self.at,
            end: self.at,
            named,
            missing: false,
            error: kind == "ERROR",
            has_error: false,
            depth,
        });
        self.rows.len() - 1
    }

    fn close(&mut self, row: usize) {
        self.rows[row].end = self.at;
    }

    fn token(&mut self, kind: &str, named: bool, depth: u32, len: usize) {
        let row = self.push(kind, named, depth);
        self.at += len;
        self.close(row);
    }

    /// The length of the word at the start of `text`.
    fn word_len(text: &str) -> usize {
        let bytes = text.as_bytes();
        let mut n: usize = 0;
        loop {
            while n < bytes.len() && bytes[n].is_ascii_alphabetic() {
                n += 1;
            }
            let joined = n > 0
                && n + 1 < bytes.len()
                && (bytes[n] == b'-' || bytes[n] == b'_')
                && bytes[n + 1].is_ascii_alphabetic();
            if !joined {
                return n;
            }
            n += 1;
        }
    }

    fn string(&mut self, depth: u32, prefix: &str) {
        let rest = self.rest();
        let bytes = rest.as_bytes();
        let mut n: usize = 1;
        while n < bytes.len() && bytes[n] != b'"' {
            n += if bytes[n] == b'\\' { 2 } else { 1 };
        }
        if n >= bytes.len() {
            self.token("\"", false, depth, 1);
            return;
        }
        let end = self.at + n;
        let string = self.push(&format!("{prefix}string"), true, depth);
        self.token("\"", false, depth + 1, 1);
        while self.at < end {
            if self.peek() == Some('\\') {
                self.token(&format!("{prefix}escape_sequence"), true, depth + 1, 2);
            } else {
                let len = self.src[self.at..end].find('\\').unwrap_or(end - self.at);
                self.token(&format!("{prefix}string_fragment"), true, depth + 1, len);
            }
        }
        self.token("\"", false, depth + 1, 1);
        self.close(string);
    }

    fn scheme(&mut self, depth: u32) {
        self.skip_white();
        let rest = self.rest();
        if rest.starts_with('(') {
            let list = self.push("scheme_list", true, depth);
            self.token("(", false, depth + 1, 1);
            loop {
                self.skip_white();
                match self.peek() {
                    None => {
                        self.rows[list].kind = "ERROR".to_string();
                        self.rows[list].error = true;
                        break;
                    }
                    Some(')') => {
                        self.token(")", false, depth + 1, 1);
                        break;
                    }
                    Some(_) => self.scheme(depth + 1),
                }
            }
            self.close(list);
        } else if rest.starts_with('"') {
            self.string(depth, "scheme_");
        } else if rest.starts_with("#{") {
            let len = rest.find("#}").map_or(rest.len(), |n| n + 2);
            self.token("scheme_embedded_lilypond", true, depth, len);
        } else if rest.starts_with(';') {
            let len = rest.find('\n').unwrap_or(rest.len());
            self.token("comment", true, depth, len);
        } else if rest.starts_with('\'') {
            let quote = self.push("scheme_quote", true, depth);
            self.token("'", false, depth + 1, 1);
            self.scheme(depth + 1);
            self.close(quote);
        } else {
            let len = rest
                .find(|c: char| c.is_whitespace() || c == '(' || c == ')' || c == '"')
                .unwrap_or(rest.len())
                .max(1);
            let digits = rest[..len].chars().all(|c| c.is_ascii_digit() || c == '-');
            let kind = if digits { "scheme_number" } else { "scheme_symbol" };
            self.token(kind, true, depth, len);
        }
    }

    /// Everything from `open` to `close`, as one node.
    fn block(&mut self, kind: &str, depth: u32, open: &str, close: &str) {
        let block = self.push(kind, true, depth);
        self.token(open, false, depth + 1, open.len());
        self.row(depth + 1, Some(close));
        if self.rest().starts_with(close) {
            self.token(close, false, depth + 1, close.len());
        } else {
            self.rows[block].kind = "ERROR".to_string();
            self.rows[block].error = true;
        }
        self.close(block);
    }

    fn path(&mut self, depth: u32, end: usize) {
        let text = &self.src[self.at..end];
        if !text.contains('.') {
            self.token("symbol", true, depth, text.len());
            return;
        }
        let path = self.push("property_expression", true, depth);
        while self.at < end {
            let rest = &self.src[self.at..end];
            if rest.starts_with('.') {
                self.token("punctuation", true, depth + 1, 1);
            } else {
                let len = rest.find('.').unwrap_or(rest.len());
                self.token("symbol", true, depth + 1, len);
            }
        }
        self.close(path);
    }

    fn word(&mut self, depth: u32) {
        let rest = self.rest();
        let mut end: usize = Self::word_len(rest);
        while rest[end..].starts_with('.') && Self::word_len(&rest[end + 1..]) > 0 {
            end = end + 1 + Self::word_len(&rest[end + 1..]);
        }
        let behind = rest[end..].trim_start();
        let assigned = behind.starts_with('=')
            && !behind.starts_with("='")
            && !behind.starts_with("=,");
        let end = self.at + end;
        if assigned {
            let lhs = self.push("assignment_lhs", true, depth);
            self.path(depth + 1, end);
            self.close(lhs);
        } else {
            self.path(depth, end);
        }
    }

    fn command(&mut self, depth: u32) {
        let rest = self.rest();
        let len = 1 + Self::word_len(&rest[1..]);
        if len == 1 {
            let len = rest.chars().take(2).map(char::len_utf8).sum();
            self.token("escaped_word", true, depth, len);
            return;
        }
        let word = &rest[..len];
        let behind = rest[len..].trim_start();
        let typed = behind.starts_with(|c: char| c.is_ascii_alphabetic());
        if (word == "\\new" || word == "\\context") && typed {
            let context = self.push("named_context", true, depth);
            self.token("escaped_word", true, depth + 1, len);
            self.skip_white();
            let len = Self::word_len(self.rest());
            self.token("symbol", true, depth + 1, len);
            self.close(context);
            if self.rest().trim_start().starts_with('=') {
                self.skip_white();
                self.token("punctuation", true, depth + 1, 1);
                self.close(context);
                let behind = self.rest().trim_start();
                if behind.starts_with('"') {
                    self.skip_white();
                    self.string(depth + 1, "");
                    self.close(context);
                } else if Self::word_len(behind) > 0 {
                    self.skip_white();
                    let len = Self::word_len(self.rest());
                    self.token("symbol", true, depth + 1, len);
                    self.close(context);
                }
            }
        } else if word == "\\new" {
            let error = self.push("ERROR", true, depth);
            self.token("escaped_word", true, depth + 1, len);
            self.close(error);
        } else {
            self.token("escaped_word", true, depth, len);
        }
    }

    fn item(&mut self, depth: u32) {
        let rest = self.rest();
        let c = self.peek().unwrap();
        if rest.starts_with("%{") {
            let len = rest.find("%}").map_or(rest.len(), |n| n + 2);
            self.token("comment", true, depth, len);
        } else if c == '%' {
            let len = rest.find('\n').unwrap_or(rest.len());
            self.token("comment", true, depth, len);
        } else if c == '"' {
            self.string(depth, "");
        } else if c == '\\' {
            self.command(depth);
        } else if c == '{' {
            self.block("expression_block", depth, "{", "}");
        } else if rest.starts_with("<<") {
            self.block("parallel_music", depth, "<<", ">>");
        } else if c == '<' {
            self.block("chord", depth, "<", ">");
        } else if c == '}' {
            let error = self.push("ERROR", true, depth);
            self.token("}", false, depth + 1, 1);
            self.close(error);
        } else if c == '#' || c == '$' {
            let scheme = self.push("embedded_scheme", true, depth);
            self.token("embedded_scheme_prefix", true, depth + 1, 1);
            let text = self.push("embedded_scheme_text", true, depth + 1);
            self.scheme(depth + 2);
            self.close(text);
            self.close(scheme);
        } else if c.is_ascii_digit() {
            let len = rest.find(|c: char| !c.is_ascii_digit()).unwrap_or(rest.len());
            let behind = &rest[len..];
            if behind.starts_with('/') && behind[1..].starts_with(|c: char| c.is_ascii_digit()) {
                let more = behind[1..]
                    .find(|c: char| !c.is_ascii_digit())
                    .unwrap_or(behind.len() - 1);
                self.token("fraction", true, depth, len + 1 + more);
            } else {
                self.token("unsigned_integer", true, depth, len);
            }
        } else if c.is_ascii_alphabetic() {
            self.word(depth);
        } else {
            self.token("punctuation", true, depth, c.len_utf8());
        }
    }

    /// Everything up to `close`, or to the end.
    fn row(&mut self, depth: u32, close: Option<&str>) {
        loop {
            self.skip_white();
            if self.rest().is_empty() {
                return;
            }
            if close.is_some_and(|close| self.rest().starts_with(close)) {
                return;
            }
            self.item(depth);
        }
    }
}

/// The syntax tree of `src`.
#[allow(dead_code)]
fn tree(src: &str) -> SyntaxTree {
    let mut reader = Reader { src, at: 0, rows: Vec::new() };
    let root = reader.push("lilypond_program", true, 0);
    reader.row(1, None);
    reader.at = src.len();
    reader.close(root);
    let mut rows = reader.rows;
    for i in 0..rows.len() {
        let mut stop: usize = i + 1;
        while stop < rows.len() && rows[stop].depth > rows[i].depth {
            stop += 1;
        }
        let wrong = rows[i..stop].iter().any(|row| row.error || row.missing);
        rows[i].has_error = wrong;
    }
    tree_of(rows).expect("one tree")
}

/// The Dutch note names.
#[allow(dead_code)]
fn dutch() -> NoteLanguage {
    let mut notes: Vec<NoteName> = Vec::new();
    for (note_name, letter) in ["c", "d", "e", "f", "g", "a", "b"].iter().enumerate() {
        for (suffix, alteration) in [("", 0i8), ("is", 1), ("es", -1)] {
            notes.push(NoteName {
                text: format!("{letter}{suffix}"),
                note_name: note_name as u8,
                alteration,
            });
        }
    }
    NoteLanguage { name: "nederlands".to_string(), notes }
}

/// This library's own layers.
#[allow(dead_code)]
fn base() -> Base {
    Base::builtins(vec![Arc::new(dutch())])
}

/// The scope of a file that defines nothing.
#[allow(dead_code)]
fn builtins_only() -> Scope {
    base().for_document(&Vec::new())
}

/// Every call of `src`, in source order.
#[allow(dead_code)]
fn calls_of(tree: &SyntaxTree, src: &str, scope: &Scope) -> Commands {
    collect_calls(tree, src, &dutch(), scope)
}

/// The document of a file called `origin`, and the scope it makes on its own.
#[allow(dead_code)]
fn named(origin: &str, src: &str, id: u64) -> (Document, Scope) {
    let mut document =
        Document::from_parts(src.to_string(), tree(src), Arc::new(origin.to_string()), id);
    let scope = base().for_document(&vec![document.commands_defined.clone()]);
    let commands = calls_of(&document.tree, src, &scope);
    let notes = NoteAnalysis { events: Vec::new(), commands, problems: Vec::new() };
    document.refresh(&scope, notes);
    (document, scope)
}

#[allow(dead_code)]
fn document(src: &str) -> Document {
    named("untitled", src, 10).0
}

fn json() -> tree_sitter::Language {
    tree_sitter_json::LANGUAGE.into()
}

fn opened(text: &str) -> DocumentGraph {
    let mut graph = DocumentGraph::new();
    assert!(graph.open(
        "file:///a.ly".to_string(),
        text.to_string(),
        Arc::new("a.ly".to_string()),
        &json(),
        10,
    ));
    graph
}

fn kinds(tree: &SyntaxTree) -> Vec<&str> {
    tree.nodes.iter().map(|node| node.kind.as_str()).collect()
}

#[test]
fn a_parsed_text_is_copied_node_by_node() {
    let src = "[1, true]";
    let tree = parse(&json(), src).expect("a tree");
    assert_eq!(
        kinds(&tree),
        vec!["document", "array", "[", "number", ",", "true", "]"]
    );
    assert_eq!(tree.children(0), vec![1]);
    assert_eq!(tree.children(1), vec![2, 3, 4, 5, 6]);
    assert_eq!(tree.parent(3), Some(1));
    assert_eq!(tree.span(3), Span::new(1, 2));
    assert!(tree.nodes[3].named);
    assert!(!tree.nodes[4].named);
    assert!(!tree.nodes[0].has_error);
    assert_eq!(tree.descendant_for_byte_range(4, 8), Some(5));
}

#[test]
fn a_text_that_does_not_parse_has_errors_in_its_tree() {
    let tree = parse(&json(), "[1").expect("a tree");
    assert!(tree.nodes[0].has_error);
    assert!(tree.nodes.iter().any(|node| node.error || node.missing));
}

#[test]
fn rows_of_no_tree_make_none() {
    let row = |depth: u32| Row {
        kind: "x".to_string(),
        start: 0,
        end: 1,
        named: true,
        missing: false,
        error: false,
        has_error: false,
        depth,
    };
    assert!(tree_of(Vec::new()).is_none());
    assert!(tree_of(vec![row(1)]).is_none());
    assert!(tree_of(vec![row(0), row(0)]).is_none());
    let tree = tree_of(vec![row(0), row(1), row(2), row(1)]).expect("one tree");
    assert_eq!(tree.children(0), vec![1, 3]);
    assert_eq!(tree.past(1), 3);
    assert_eq!(tree.prev_sibling(3), Some(1));
    assert_eq!(tree.copy().children(0), vec![1, 3]);
}

#[test]
fn points_count_lines_and_bytes() {
    let text = "a\né\n\nb";
    assert_eq!(point_at(text, 0), TextPoint { row: 0, column: 0 });
    assert_eq!(point_at(text, 1), TextPoint { row: 0, column: 1 });
    assert_eq!(point_at(text, 4), TextPoint { row: 1, column: 2 });
    assert_eq!(point_at(text, 6), TextPoint { row: 3, column: 0 });
    assert_eq!(point_at(text, 7), TextPoint { row: 3, column: 1 });
}

#[test]
fn open_documents_come_and_go() {
    let mut graph = opened("[1]");
    assert_eq!(graph.open_uris(), vec!["file:///a.ly".to_string()]);
    let document = graph.document("file:///a.ly").expect("open");
    assert_eq!(document.text, "[1]");
    assert_eq!(kinds(&document.tree), vec!["document", "array", "[", "number", "]"]);
    assert!(graph.document("file:///b.ly").is_none());
    graph.close("file:///a.ly");
    assert!(graph.document("file:///a.ly").is_none());
    assert!(graph.open_uris().is_empty());
}

#[test]
fn several_documents_are_open_side_by_side() {
    let mut graph = opened("[1]");
    assert!(graph.open(
        "file:///b.ly".to_string(),
        "{}".to_string(),
        Arc::new("b.ly".to_string()),
        &json(),
        11,
    ));
    let mut uris = graph.open_uris();
    uris.sort();
    assert_eq!(uris, vec!["file:///a.ly".to_string(), "file:///b.ly".to_string()]);
    graph.close("file:///a.ly");
    assert_eq!(graph.document("file:///b.ly").expect("open").text, "{}");
}

fn change(from: (u32, u32), to: (u32, u32), text: &str) -> Change {
    let start = Position::new(from.0, from.1);
    let end = Position::new(to.0, to.1);
    Change { range: Some(Range::new(start, end)), text: text.to_string() }
}

#[test]
fn changes_are_applied_in_order_and_parsed_against_the_old_tree() {
    let mut graph = opened("[1,\n2]");
    let changes = vec![change((1, 0), (1, 1), "true"), change((0, 1), (0, 2), "null")];
    assert!(graph.can_change("file:///a.ly", &changes));
    assert!(graph.change("file:///a.ly", &changes, &json(), 11));
    let document = graph.document("file:///a.ly").expect("open");
    assert_eq!(document.text, "[null,\ntrue]");
    assert_eq!(
        kinds(&document.tree),
        vec!["document", "array", "[", "null", ",", "true", "]"]
    );
    assert_eq!(document.tree.span(5), Span::new(7, 11));
    assert_eq!(document.commands_defined.id, 11);
    assert_eq!(document.commands_defined.origin.as_str(), "a.ly");
}

#[test]
fn a_change_without_a_range_replaces_the_text() {
    let mut graph = opened("[1]");
    let changes = vec![Change { range: None, text: "{}".to_string() }];
    assert!(graph.change("file:///a.ly", &changes, &json(), 11));
    let document = graph.document("file:///a.ly").expect("open");
    assert_eq!(document.text, "{}");
    assert_eq!(kinds(&document.tree), vec!["document", "object", "{", "}"]);
}

#[test]
fn no_changes_leave_the_document_alone() {
    let mut graph = opened("[1]");
    assert!(graph.change("file:///a.ly", &Vec::new(), &json(), 11));
    assert_eq!(graph.document("file:///a.ly").expect("open").commands_defined.id, 10);
    assert!(!graph.change("file:///b.ly", &Vec::new(), &json(), 11));
}

#[test]
fn a_backward_range_is_no_change() {
    let graph = opened("[1,\n2]");
    assert!(!graph.can_change("file:///a.ly", &vec![change((1, 0), (0, 0), "")]));
    // The first change leaves one line, so that the second range lies at its end.
    let changes = vec![change((0, 0), (1, 2), "[]"), change((1, 0), (0, 1), "")];
    assert!(!graph.can_change("file:///a.ly", &changes));
    assert!(!graph.can_change("file:///b.ly", &Vec::new()));
}

#[test]
fn a_single_change_goes_to_the_document_itself() {
    let mut document =
        Document::new("[1]".to_string(), &json(), Arc::new("a.ly".to_string()), 10).expect("held");
    assert!(document.apply_change(&change((0, 1), (0, 2), "2, 3"), &json(), 12));
    assert_eq!(document.text, "[2, 3]");
    assert_eq!(document.tree.nodes.len(), 7);
    assert_eq!(document.commands_defined.id, 12);
    assert!(document.parsed.is_some());
}

#[test]
fn a_position_outside_the_text_is_its_end() {
    let document =
        Document::new("[1]".to_string(), &json(), Arc::new("a.ly".to_string()), 10).expect("held");
    assert_eq!(document.changed_text(&change((0, 3), (7, 0), " ")), "[1] ");
}

#[test]
fn a_file_read_from_disk_is_reused_until_it_is_written_again() {
    let mut graph = DocumentGraph::new();
    let uri = "file:///inc.ily";
    assert!(graph.cached(uri, 5).is_none());
    let read = graph.remember(
        uri.to_string(),
        5,
        "[1]".to_string(),
        Arc::new("inc.ily".to_string()),
        &json(),
        10,
    );
    assert_eq!(read.expect("held").text, "[1]");
    assert_eq!(graph.cached(uri, 5).expect("fresh").text, "[1]");
    assert!(graph.cached(uri, 6).is_none());
    assert!(graph.document(uri).is_none());

    // Once the file is open, what was read from disk is forgotten.
    assert!(graph.open(
        uri.to_string(),
        "[2]".to_string(),
        Arc::new("inc.ily".to_string()),
        &json(),
        11,
    ));
    assert!(graph.cached(uri, 5).is_none());
    assert_eq!(graph.document(uri).expect("open").text, "[2]");
}

fn no_notes() -> NoteAnalysis {
    NoteAnalysis { events: Vec::new(), commands: Commands::new(Vec::new()), problems: Vec::new() }
}

#[test]
fn an_analysis_is_taken_over_once_for_each_scope() {
    let mut graph = opened("[1]");
    let scope = builtins_only();
    let problem = NoteAnalysis { problems: vec![Problem::NotANote(Span::new(1, 2))], ..no_notes() };
    assert!(graph.refresh("file:///a.ly", &scope, problem));
    let document = graph.document("file:///a.ly").expect("open");
    assert!(document.is_current(&scope));
    assert_eq!(document.notes.problems.len(), 1);
    assert_eq!(document.text, "[1]");
    assert!(graph.refresh("file:///a.ly", &scope, no_notes()));
    assert_eq!(graph.document("file:///a.ly").expect("open").notes.problems.len(), 1);
    assert!(!graph.refresh("file:///b.ly", &scope, no_notes()));
}

#[test]
fn a_file_read_from_disk_is_analysed_too() {
    let mut graph = DocumentGraph::new();
    let origin = Arc::new("inc.ily".to_string());
    graph.remember("file:///inc.ily".to_string(), 5, "[1]".to_string(), origin, &json(), 10);
    let scope = builtins_only();
    assert!(graph.refresh("file:///inc.ily", &scope, no_notes()));
    assert!(graph.cached("file:///inc.ily", 5).expect("fresh").is_current(&scope));
}

#[test]
fn the_vocabulary_is_loaded_once() {
    let mut graph = DocumentGraph::new();
    assert!(graph.base().is_none());
    assert!(graph.lilypond_version().is_none());
    assert!(graph.load_vocabulary(base(), Some("2.24.3".to_string())).is_ok());
    assert_eq!(graph.lilypond_version(), Some("2.24.3"));
    assert!(graph.base().is_some());
    let again = graph.load_vocabulary(base(), Some("2.25.0".to_string()));
    let Err(error) = again else {
        panic!("a second load is refused");
    };
    assert!(matches!(error, LoadVocabularyError::AlreadyLoaded));
    assert_eq!(error.message(), "vocabulary was already loaded");
    assert_eq!(graph.lilypond_version(), Some("2.24.3"));
    assert_eq!(LoadVocabularyError::Io("no such file".to_string()).message(), "no such file");
}

#[test]
fn the_search_paths_are_set_once() {
    let mut graph = DocumentGraph::new();
    assert!(graph.search_paths().is_empty());
    graph.set_search_paths(vec!["/a".to_string(), "/b".to_string()]);
    graph.set_search_paths(vec!["/c".to_string()]);
    assert_eq!(graph.search_paths(), vec!["/a".to_string(), "/b".to_string()]);
}

#[test]
fn the_first_existing_candidate_is_the_included_file() {
    assert_eq!(resolve_include(&vec![false, true, true]), 1);
    assert_eq!(resolve_include(&vec![true]), 0);
    assert_eq!(resolve_include(&vec![false, false]), 0);
}

#[test]
fn a_walk_meets_every_reachable_file_once() {
    let edges = |file: &str| -> Vec<String> {
        let targets: &[&str] = match file {
            "a" => &["b", "c"],
            "b" => &["a", "d"],
            "c" => &["d"],
            _ => &[],
        };
        targets.iter().map(|target| target.to_string()).collect()
    };
    let mut walk = Walk::new("a".to_string());
    while let Some(file) = walk.step() {
        walk.found(edges(&file));
    }
    // The last file named is followed first.
    assert_eq!(walk.order, vec!["a", "c", "d", "b"]);
    assert!(walk.stack.is_empty());
}

#[test]
fn reserved_words_cannot_be_rebound() {
    let (_, scope) = named("song.ly", "repeat = { c }\nfoo = { d }\n", 10);
    let (repeat, origin) = scope.get("repeat").expect("reserved");
    assert_eq!(origin.as_str(), "built-in");
    assert_eq!(repeat.params.len(), 3);
    let (_, origin) = scope.get("foo").expect("defined");
    assert_eq!(origin.as_str(), "song.ly");
    assert!(!scope.is_known("bar"));
    assert!(scope.is_known("clef"));
}

#[test]
fn a_file_shadows_what_is_merely_curated() {
    let (_, scope) = named("song.ly", "clef = { c }\n", 10);
    assert_eq!(scope.get("clef").expect("defined").1.as_str(), "song.ly");
    assert_eq!(builtins_only().get("clef").expect("curated").1.as_str(), "built-in");
}

#[test]
fn layers_that_define_nothing_are_left_out() {
    let (document, scope) = named("song.ly", "{ c }\n", 10);
    assert!(document.commands_defined.is_empty());
    assert_eq!(fingerprint(&scope), fingerprint(&builtins_only()));
    let (_, scope) = named("song.ly", "foo = { c }\n", 12);
    assert_eq!(fingerprint(&scope).len(), fingerprint(&builtins_only()).len() + 1);
    assert!(fingerprint(&scope).contains(&12));
}

#[test]
fn each_visible_name_is_listed_once() {
    let (_, scope) = named("song.ly", "clef = { c }\nfoo = { d }\n", 10);
    let mut names: Vec<String> = visible(&scope).into_iter().map(|v| v.name).collect();
    let listed = names.len();
    names.sort();
    names.dedup();
    assert_eq!(names.len(), listed);
    for name in ["repeat", "clef", "foo"] {
        assert!(names.iter().any(|n| n == name));
    }
}

#[test]
fn the_word_being_typed_reaches_back_to_its_backslash() {
    assert_eq!(word_being_typed("{ \\rela }", 7), Some(Span::new(2, 7)));
    assert_eq!(word_being_typed("{ rela }", 6), None);
    assert_eq!(word_being_typed("\\", 1), Some(Span::new(0, 1)));
    // Letters and digits of every script belong to the word.
    assert_eq!(word_being_typed("\\éa9", 5), Some(Span::new(0, 5)));
    assert_eq!(word_being_typed("\\a☃b", 6), None);
}

#[test]
fn a_bare_keyword_awaits_its_first_argument() {
    assert_eq!(keyword_awaiting_its_first_argument("{ \\new ", 7), Some("new"));
    assert_eq!(keyword_awaiting_its_first_argument("{ \\change", 9), Some("change"));
    assert_eq!(keyword_awaiting_its_first_argument("{ \\repeat ", 10), None);
    assert_eq!(keyword_awaiting_its_first_argument("{ \\new S", 8), None);
}

#[test]
fn positions_count_utf16_units() {
    let src = "a𝄞é\r\nb";
    let index = LineIndex::new(src);
    assert_eq!(index.position_at(5), Position::new(0, 3));
    assert_eq!(index.position_at(7), Position::new(0, 4));
    assert_eq!(index.position_at(src.len()), Position::new(1, 1));
    for (offset, _) in src.char_indices() {
        assert_eq!(index.offset_at(index.position_at(offset)), Some(offset));
    }
    assert_eq!(index.offset_at(Position::new(2, 0)), None);
    assert_eq!(index.offset_clamped(Position::new(2, 0)), src.len());
}

#[test]
fn every_error_of_a_broken_text_is_reported() {
    let (document, _) = named("song.ly", "foo = { c }\n} bar }\n", 10);
    let messages: Vec<String> =
        document.diagnostics().into_iter().map(|d| d.message).collect();
    assert_eq!(messages, vec!["unmatched `}`", "unmatched `}`"]);
}

#[test]
fn a_problem_with_a_note_is_reported_where_it_is() {
    let (mut document, _) = named("song.ly", "{ x c: }\n", 10);
    document.notes.problems =
        vec![Problem::NotANote(Span::new(2, 3)), Problem::DanglingColon(Span::new(5, 6))];
    let found = document.diagnostics();
    assert_eq!(found[0].message, "`x` is not a note name");
    assert_eq!(found[0].severity, Severity::Warning);
    assert_eq!(found[0].range, Range::new(Position::new(0, 2), Position::new(0, 3)));
    assert_eq!(found[1].message, "expected a chord modifier or tremolo after `:`");
    assert_eq!(found[1].severity, Severity::Error);
}

#[test]
fn undefined_references_are_reported_only_with_a_vocabulary() {
    let (document, scope) = named("song.ly", "{ \\foo }\n", 10);
    assert!(diagnostics(&document, None).is_empty());
    let found = diagnostics(&document, Some(&scope));
    assert_eq!(found.len(), 1);
    assert_eq!(found[0].message, "undefined reference to `\\foo`");
    assert_eq!(found[0].range, Range::new(Position::new(0, 2), Position::new(0, 6)));
}

#[test]
fn the_version_of_an_installation_is_the_name_of_its_directory() {
    assert_eq!(version("/usr/share/lilypond/2.24.3"), Some("2.24.3"));
    assert_eq!(origin("ly"), "lilypond");
    assert_eq!(file_names().len(), 17);
    assert_eq!(context_file_names(), vec!["engraver-init.ly", "performer-init.ly"]);
}

#[test]
fn the_two_declarations_of_a_context_type_are_merged() {
    let engraver = "\\context { \\name Staff \\alias Timing \\description \"Handles clefs.\" }";
    let performer = "\\context { \\name Staff \\alias Midi }\n\\context { \\name Score }";
    let layer = load_parsed(
        &Vec::new(),
        &Vec::new(),
        &vec![engraver.to_string(), performer.to_string()],
        &vec![Some(tree(engraver)), Some(tree(performer))],
        "/usr/share/lilypond/2.24.3/ly",
        10,
    );
    let names: Vec<&str> = layer.context_types.iter().map(|t| t.name.as_str()).collect();
    assert_eq!(names.iter().filter(|name| **name == "Staff").count(), 1);
    let staff = layer.context_types.iter().find(|t| t.name == "Staff").unwrap();
    assert_eq!(staff.description.as_deref(), Some("Handles clefs."));
    assert!(staff.aliases.contains(&"Timing".to_string()));
    assert!(staff.aliases.contains(&"Midi".to_string()));
    // A context type can be referred to as a command, too.
    assert!(layer.get("Staff").expect("bound").params.is_empty());
    assert_eq!(layer.origin.as_str(), "lilypond-2.24.3");
}

#[test]
fn rename_changes_what_references_shows() {
    let src = "foo = { c }\n{ \\foo \\foo }\n";
    let document = Arc::new(named("song.ly", src, 10).0);
    let files =
        vec![File { uri: "song.ly".to_string(), document: document.clone() }];
    let open = vec![OpenFile {
        uri: "song.ly".to_string(),
        document: document.clone(),
        closure: vec!["song.ly".to_string()],
    }];
    let edits = rename("foo", "bar", &files, &open, "song.ly").expect("a definition");
    let target = target_at(&document, Position::new(0, 1));
    let shown = references(&target, &files, &open, "song.ly", true);
    assert_eq!(edits.len(), shown.len());
    for edit in &edits {
        assert!(shown.iter().any(|location| location.range == edit.edit.range));
    }
    let written: Vec<&str> = edits.iter().map(|e| e.edit.new_text.as_str()).collect();
    assert_eq!(written, vec!["bar", "\\bar", "\\bar"]);
    assert!(rename("relative", "bar", &files, &open, "song.ly").is_none());
}

#[test]
fn an_include_path_leads_to_the_file() {
    let (document, _) = named("song.ly", "\\include \"notes.ily\"\n", 10);
    let target = target_at(&document, Position::new(0, 12));
    assert!(matches!(target, Target::Path(path) if path == "notes.ily"));
    assert!(matches!(target_at(&document, Position::new(1, 0)), Target::Nothing));
}

#[test]
fn tokens_come_in_order_and_do_not_overlap() {
    let tokens = tokenise("foo = { \\bar c } % x\nbaz");
    for pair in tokens.windows(2) {
        assert!(pair[0].span.start < pair[0].span.end);
        assert!(pair[0].span.end <= pair[1].span.start);
    }
}

#[test]
fn a_nested_block_of_a_nested_block_is_read_alike() {
    for region in [Region::NoteMusic, Region::NonNote, Region::Lyrics] {
        assert_eq!(region.nested_block().nested_block(), region.nested_block());
    }
}

#[test]
fn a_language_command_changes_the_note_names() {
    let english = NoteLanguage { name: "english".to_string(), notes: Vec::new() };
    let base = Base::builtins(vec![Arc::new(dutch()), Arc::new(english)]);
    let scope = base.for_document(&Vec::new());
    let src = "\\language \"english\"";
    let tree = tree(src);
    let children = tree.children(0);
    let language = dutch();
    let run = Run { tree: &tree, children: &children, src, language: &language };
    let (call, _) = parse_call(run, 0, &scope).expect("a language call");
    assert_eq!(selected(&call, &scope).expect("known").name, "english");
    let ambient = MusicContext::new(NoteEntry::Absolute, Region::NoteMusic, Arc::new(dutch()));
    assert_eq!(call.cmd.music_context(&call, ambient, &scope).language.name, "english");
}

#[test]
fn relative_and_fixed_read_their_bodies_from_the_reference() {
    let scope = builtins_only();
    for (src, relative) in [("\\relative c'' { c }", true), ("\\fixed c'' { c }", false)] {
        let tree = tree(src);
        let children = tree.children(0);
        let language = dutch();
        let run = Run { tree: &tree, children: &children, src, language: &language };
        let (call, _) = parse_call(run, 0, &scope).expect("a call");
        let ambient = MusicContext::new(NoteEntry::Absolute, Region::NoteMusic, Arc::new(dutch()));
        let entry = call.cmd.music_context(&call, ambient, &scope).entry;
        if relative {
            assert!(matches!(
                entry,
                NoteEntry::Relative(Pitch { note_name: 0, octave: 1, alteration: 0 })
            ));
        } else {
            assert!(!matches!(entry, NoteEntry::Relative(_) | NoteEntry::Absolute));
        }
    }
}

#[test]
fn questions_are_answered_from_the_document_they_name() {
    let graph = opened("[1");
    let scope = builtins_only();
    let messages: Vec<String> =
        graph.diagnostics("file:///a.ly", &scope).into_iter().map(|d| d.message).collect();
    assert_eq!(messages, vec!["missing `]`"]);
    assert!(graph.diagnostics("file:///b.ly", &scope).is_empty());
    let start = Position::new(0, 0);
    let nowhere = Range::new(start, start);
    assert!(graph.document_highlights("file:///a.ly", start).is_empty());
    assert!(graph.path_at("file:///a.ly", start).is_none());
    assert!(graph.goto_definition("file:///a.ly", start, &Vec::new()).is_empty());
    assert!(graph.references("file:///a.ly", start, true, &Vec::new(), &Vec::new()).is_empty());
    assert!(graph.rename("file:///a.ly", start, "x", &Vec::new(), &Vec::new()).is_none());
    assert!(graph.code_actions("file:///a.ly", nowhere).is_empty());
    assert!(graph.resolve_code_action("file:///a.ly", "inline_all", nowhere).is_none());
    assert!(graph.signature_help("file:///a.ly", start).is_none());
    assert!(graph.hover("file:///a.ly", start, &scope, &json()).is_none());
    assert_eq!(start_of_file(), nowhere);
}

#[test]
fn a_half_typed_command_is_completed_from_the_scope() {
    let graph = opened("\\rel");
    let scope = builtins_only();
    let items = graph.completions("file:///a.ly", Position::new(0, 4), &scope, &json());
    let relative = items.iter().find(|item| item.label == "\\relative").expect("offered");
    assert_eq!(relative.detail, "built-in");
    assert!(matches!(relative.kind, ItemKind::Function));
    assert!(graph.completions("file:///b.ly", Position::new(0, 4), &scope, &json()).is_empty());
}

#[test]
fn files_are_those_that_there_is_a_document_of() {
    let mut graph = opened("[1]");
    let origin = Arc::new("inc.ily".to_string());
    graph.remember("file:///inc.ily".to_string(), 5, "[2]".to_string(), origin, &json(), 11);
    let uris: Vec<String> = ["file:///a.ly", "file:///gone.ly", "file:///inc.ily"]
        .iter()
        .map(|uri| uri.to_string())
        .collect();
    let files = graph.files(&uris);
    let found: Vec<(&str, &str)> =
        files.iter().map(|f| (f.uri.as_str(), f.document.text.as_str())).collect();
    assert_eq!(found, vec![("file:///a.ly", "[1]"), ("file:///inc.ily", "[2]")]);
    assert!(graph.known("file:///gone.ly").is_none());
    assert!(graph.read_before("file:///a.ly").is_none());
}

#[test]
fn a_file_from_before_the_epoch_is_remembered_too() {
    let mut graph = DocumentGraph::new();
    let origin = Arc::new("old.ily".to_string());
    graph.remember("file:///old.ily".to_string(), -5, "[1]".to_string(), origin, &json(), 10);
    assert_eq!(graph.cached("file:///old.ily", -5).expect("fresh").text, "[1]");
    assert!(graph.cached("file:///old.ily", 5).is_none());
}

#[test]
fn a_walk_round_in_circles_ends_after_as_many_steps_as_there_are_files() {
    let mut walk = Walk::new("a".to_string());
    let mut steps: usize = 0;
    while let Some(file) = walk.step() {
        steps += 1;
        let targets = match file.as_str() {
            "a" => vec!["b".to_string(), "c".to_string(), "a".to_string()],
            "b" => vec!["a".to_string(), "c".to_string()],
            _ => vec!["b".to_string()],
        };
        walk.found(targets);
    }
    assert_eq!(steps, 3);
    assert!(walk.stack.is_empty());
    assert!(walk.step().is_none());
}

#[test]
fn two_characters_never_share_a_position() {
    let src = "a𝄞é\r\nb\n\nc";
    let index = LineIndex::new(src);
    let positions: Vec<Position> =
        src.char_indices().map(|(offset, _)| index.position_at(offset)).collect();
    for pair in positions.windows(2) {
        assert!(
            pair[0].line < pair[1].line
                || (pair[0].line == pair[1].line && pair[0].character < pair[1].character)
        );
    }
}

#[test]
fn the_same_text_and_tree_read_the_same_however_they_came_about() {
    let mut graph = opened("[1]");
    let change = Change { range: None, text: "[2]".to_string() };
    graph.change("file:///a.ly", &vec![change], &json(), 11);
    let changed = graph.document("file:///a.ly").expect("open");
    let fresh = opened("[2]").document("file:///a.ly").expect("open");
    assert_eq!(changed.text, fresh.text);
    assert_eq!(kinds(&changed.tree), kinds(&fresh.tree));
    assert_eq!(changed.definitions.len(), fresh.definitions.len());
    assert_eq!(changed.references.len(), fresh.references.len());
    assert_eq!(changed.includes.len(), fresh.includes.len());
}
