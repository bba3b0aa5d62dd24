use ly_lsp::command::Behaviour;
use ly_lsp::command::builtins::reserved;
use ly_lsp::command::calls::Commands;
use ly_lsp::command::collect::collect_calls;
use ly_lsp::command::definition::Binding;
use ly_lsp::command::definition;
use ly_lsp::command::definition_spans;
use ly_lsp::command::variable::{Variable, summarise};
use ly_lsp::document::{Document, NoteAnalysis};
use ly_lsp::grammar::{Row, tree_of};
use ly_lsp::install::{load, load_parsed, origin, origin_on, version, version_on};
use ly_lsp::line_struct::Span;
use ly_lsp::note_names::{NoteLanguage, NoteName};
use ly_lsp::scope::Base;
use ly_lsp::syntax::SyntaxTree;
use ly_lsp::vocabulary::{Layer, listed_words};
use ly_lsp::vocabulary::Scope;
use std::sync::Arc;

/// Reads LilyPond source into rows, with the shapes that the LilyPond grammar gives it.
#[allow(dead_code)]
struct Reader<'a> {
    src: &'a str,
    at: usize,
    rows: Vec<Row>,
}

#[allow(dead_code)]
impl<'a> Reader<'a> {
    fn rest(&self) -> &'a str {
        &self.src[self.at..]
    }

    fn peek(&self) -> Option<char> {
        self.rest().chars().next()
    }

    fn skip_white(&mut self) {
        while let Some(c) = self.peek() {
            if !c.is_whitespace() {
                break;
            }
            self.at += c.len_utf8();
        }
    }

    fn push(&mut self, kind: &str, named: bool, depth: u32) -> usize {
        self.rows.push(Row {
            kind: kind.to_string(),
            start: self.at,
            end: self.at,
            named,
            missing: false,
            error: kind == "ERROR",
            has_error: false,
            depth,
        });
        self.rows.len() - 1
    }

    fn close(&mut self, row: usize) {
        self.rows[row].end = self.at;
    }

    fn token(&mut self, kind: &str, named: bool, depth: u32, len: usize) {
        let row = self.push(kind, named, depth);
        self.at += len;
        self.close(row);
    }

    /// The length of the word at the start of `text`.
    fn word_len(text: &str) -> usize {
        let bytes = text.as_bytes();
        let mut n: usize = 0;
        loop {
            while n < bytes.len() && bytes[n].is_ascii_alphabetic() {
                n += 1;
            }
            let joined = n > 0
                && n + 1 < bytes.len()
                && (bytes[n] == b'-' || bytes[n] == b'_')
                && bytes[n + 1].is_ascii_alphabetic();
            if !joined {
                return n;
            }
            n += 1;
        }
    }

    fn string(&mut self, depth: u32, prefix: &str) {
        let rest = self.rest();
        let bytes = rest.as_bytes();
        let mut n: usize = 1;
        while n < bytes.len() && bytes[n] != b'"' {
            n += if bytes[n] == b'\\' { 2 } else { 1 };
        }
        if n >= bytes.len() {
            self.token("\"", false, depth, 1);
            return;
        }
        let end = self.at + n;
        let string = self.push(&format!("{prefix}string"), true, depth);
        self.token("\"", false, depth + 1, 1);
        while self.at < end {
            if self.peek() == Some('\\') {
                self.token(&format!("{prefix}escape_sequence"), true, depth + 1, 2);
            } else {
                let len = self.src[self.at..end].find('\\').unwrap_or(end - self.at);
                self.token(&format!("{prefix}string_fragment"), true, depth + 1, len);
            }
        }
        self.token("\"", false, depth + 1, 1);
        self.close(string);
    }

    fn scheme(&mut self, depth: u32) {
        self.skip_white();
        let rest = self.rest();
        if rest.starts_with('(') {
            let list = self.push("scheme_list", true, depth);
            self.token("(", false, depth + 1, 1);
            loop {
                self.skip_white();
                match self.peek() {
                    None => {
                        self.rows[list].kind = "ERROR".to_string();
                        self.rows[list].error = true;
                        break;
                    }
                    Some(')') => {
                        self.token(")", false, depth + 1, 1);
                        break;
                    }
                    Some(_) => self.scheme(depth + 1),
                }
            }
            self.close(list);
        } else if rest.starts_with('"') {
            self.string(depth, "scheme_");
        } else if rest.starts_with("#{") {
            let len = rest.find("#}").map_or(rest.len(), |n| n + 2);
            self.token("scheme_embedded_lilypond", true, depth, len);
        } else if rest.starts_with(';') {
            let len = rest.find('\n').unwrap_or(rest.len());
            self.token("comment", true, depth, len);
        } else if rest.starts_with('\'') {
            let quote = self.push("scheme_quote", true, depth);
            self.token("'", false, depth + 1, 1);
            self.scheme(depth + 1);
            self.close(quote);
        } else {
            let len = rest
                .find(|c: char| c.is_whitespace() || c == '(' || c == ')' || c == '"')
                .unwrap_or(rest.len())
                .max(1);
            let digits = rest[..len].chars().all(|c| c.is_ascii_digit() || c == '-');
            let kind = if digits { "scheme_number" } else { "scheme_symbol" };
            self.token(kind, true, depth, len);
        }
    }

    /// Everything from `open` to `close`, as one node.
    fn block(&mut self, kind: &str, depth: u32, open: &str, close: &str) {
        let block = self.push(kind, true, depth);
        self.token(open, false, depth + 1, open.len());
        self.row(depth + 1, Some(close));
        if self.rest().starts_with(close) {
            self.token(close, false, depth + 1, close.len());
        } else {
            self.rows[block].kind = "ERROR".to_string();
            self.rows[block].error = true;
        }
        self.close(block);
    }

    fn path(&mut self, depth: u32, end: usize) {
        let text = &self.src[self.at..end];
        if !text.contains('.') {
            self.token("symbol", true, depth, text.len());
            return;
        }
        let path = self.push("property_expression", true, depth);
        while self.at < end {
            let rest = &self.src[self.at..end];
            if rest.starts_with('.') {
                self.token("punctuation", true, depth + 1, 1);
            } else {
                let len = rest.find('.').unwrap_or(rest.len());
                self.token("symbol", true, depth + 1, len);
            }
        }
        self.close(path);
    }

    fn word(&mut self, depth: u32) {
        let rest = self.rest();
        let mut end: usize = Self::word_len(rest);
        while rest[end..].starts_with('.') && Self::word_len(&rest[end + 1..]) > 0 {
            end = end + 1 + Self::word_len(&rest[end + 1..]);
        }
        let behind = rest[end..].trim_start();
        let assigned = behind.starts_with('=')
            && !behind.starts_with("='")
            && !behind.starts_with("=,");
        let end = self.at + end;
        if assigned {
            let lhs = self.push("assignment_lhs", true, depth);
            self.path(depth + 1, end);
            self.close(lhs);
        } else {
            self.path(depth, end);
        }
    }

    fn command(&mut self, depth: u32) {
        let rest = self.rest();
        let len = 1 + Self::word_len(&rest[1..]);
        if len == 1 {
            let len = rest.chars().take(2).map(char::len_utf8).sum();
            self.token("escaped_word", true, depth, len);
            return;
        }
        let word = &rest[..len];
        let behind = rest[len..].trim_start();
        let typed = behind.starts_with(|c: char| c.is_ascii_alphabetic());
        if (word == "\\new" || word == "\\context") && typed {
            let context = self.push("named_context", true, depth);
            self.token("escaped_word", true, depth + 1, len);
            self.skip_white();
            let len = Self::word_len(self.rest());
            self.token("symbol", true, depth + 1, len);
            self.close(context);
            if self.rest().trim_start().starts_with('=') {
                self.skip_white();
                self.token("punctuation", true, depth + 1, 1);
                self.close(context);
                let behind = self.rest().trim_start();
                if behind.starts_with('"') {
                    self.skip_white();
                    self.string(depth + 1, "");
                    self.close(context);
                } else if Self::word_len(behind) > 0 {
                    self.skip_white();
                    let len = Self::word_len(self.rest());
                    self.token("symbol", true, depth + 1, len);
                    self.close(context);
                }
            }
        } else if word == "\\new" {
            let error = self.push("ERROR", true, depth);
            self.token("escaped_word", true, depth + 1, len);
            self.close(error);
        } else {
            self.token("escaped_word", true, depth, len);
        }
    }

    fn item(&mut self, depth: u32) {
        let rest = self.rest();
        let c = self.peek().unwrap();
        if rest.starts_with("%{") {
            let len = rest.find("%}").map_or(rest.len(), |n| n + 2);
            self.token("comment", true, depth, len);
        } else if c == '%' {
            let len = rest.find('\n').unwrap_or(rest.len());
            self.token("comment", true, depth, len);
        } else if c == '"' {
            self.string(depth, "");
        } else if c == '\\' {
            self.command(depth);
        } else if c == '{' {
            self.block("expression_block", depth, "{", "}");
        } else if rest.starts_with("<<") {
            self.block("parallel_music", depth, "<<", ">>");
        } else if c == '<' {
            self.block("chord", depth, "<", ">");
        } else if c == '}' {
            let error = self.push("ERROR", true, depth);
            self.token("}", false, depth + 1, 1);
            self.close(error);
        } else if c == '#' || c == '$' {
            let scheme = self.push("embedded_scheme", true, depth);
            self.token("embedded_scheme_prefix", true, depth + 1, 1);
            let text = self.push("embedded_scheme_text", true, depth + 1);
            self.scheme(depth + 2);
            self.close(text);
            self.close(scheme);
        } else if c.is_ascii_digit() {
            let len = rest.find(|c: char| !c.is_ascii_digit()).unwrap_or(rest.len());
            let behind = &rest[len..];
            if behind.starts_with('/') && behind[1..].starts_with(|c: char| c.is_ascii_digit()) {
                let more = behind[1..]
                    .find(|c: char| !c.is_ascii_digit())
                    .unwrap_or(behind.len() - 1);
                self.token("fraction", true, depth, len + 1 + more);
            } else {
                self.token("unsigned_integer", true, depth, len);
            }
        } else if c.is_ascii_alphabetic() {
            self.word(depth);
        } else {
            self.token("punctuation", true, depth, c.len_utf8());
        }
    }

    /// Everything up to `close`, or to the end.
    fn row(&mut self, depth: u32, close: Option<&str>) {
        loop {
            self.skip_white();
            if self.rest().is_empty() {
                return;
            }
            if close.is_some_and(|close| self.rest().starts_with(close)) {
                return;
            }
            self.item(depth);
        }
    }
}

/// The syntax tree of `src`.
#[allow(dead_code)]
fn tree(src: &str) -> SyntaxTree {
    let mut reader = Reader { src, at: 0, rows: Vec::new() };
    let root = reader.push("lilypond_program", true, 0);
    reader.row(1, None);
    reader.at = src.len();
    reader.close(root);
    let mut rows = reader.rows;
    for i in 0..rows.len() {
        let mut stop: usize = i + 1;
        while stop < rows.len() && rows[stop].depth > rows[i].depth {
            stop += 1;
        }
        let wrong = rows[i..stop].iter().any(|row| row.error || row.missing);
        rows[i].has_error = wrong;
    }
    tree_of(rows).expect("one tree")
}

/// The Dutch note names.
#[allow(dead_code)]
fn dutch() -> NoteLanguage {
    let mut notes: Vec<NoteName> = Vec::new();
    for (note_name, letter) in ["c", "d", "e", "f", "g", "a", "b"].iter().enumerate() {
        for (suffix, alteration) in [("", 0i8), ("is", 1), ("es", -1)] {
            notes.push(NoteName {
                text: format!("{letter}{suffix}"),
                note_name: note_name as u8,
                alteration,
            });
        }
    }
    NoteLanguage { name: "nederlands".to_string(), notes }
}

/// This library's own layers.
#[allow(dead_code)]
fn base() -> Base {
    Base::builtins(vec![Arc::new(dutch())])
}

/// The scope of a file that defines nothing.
#[allow(dead_code)]
fn builtins_only() -> Scope {
    base().for_document(&Vec::new())
}

/// Every call of `src`, in source order.
#[allow(dead_code)]
fn calls_of(tree: &SyntaxTree, src: &str, scope: &Scope) -> Commands {
    collect_calls(tree, src, &dutch(), scope)
}

/// The document of a file called `origin`, and the scope it makes on its own.
#[allow(dead_code)]
fn named(origin: &str, src: &str, id: u64) -> (Document, Scope) {
    let mut document =
        Document::from_parts(src.to_string(), tree(src), Arc::new(origin.to_string()), id);
    let scope = base().for_document(&vec![document.commands_defined.clone()]);
    let commands = calls_of(&document.tree, src, &scope);
    let notes = NoteAnalysis { events: Vec::new(), commands, problems: Vec::new() };
    document.refresh(&scope, notes);
    (document, scope)
}

#[allow(dead_code)]
fn document(src: &str) -> Document {
    named("untitled", src, 10).0
}

fn layer(bindings: Vec<Binding>) -> Layer {
    let source = Arc::new(String::new());
    definition::layer(bindings, source, Arc::new("test.ly".to_string()), 10)
}

fn binding(name: &str, at: usize) -> Binding {
    Binding::variable(name, Span::new(at, at + name.len()), None)
}

#[test]
fn a_binding_with_no_signature_is_a_command_that_takes_no_arguments() {
    let layer = layer(vec![binding("foo", 0)]);
    let foo = layer.get("foo").expect("foo");
    assert_eq!(foo.name, "foo");
    assert!(foo.params.is_empty());
}

#[test]
fn a_name_bound_twice_keeps_both_definitions_in_source_order() {
    let layer = layer(vec![binding("foo", 0), binding("foo", 20)]);
    let foo = layer.get("foo").expect("foo");
    assert_eq!(
        definition_spans(foo.as_ref()),
        vec![Span::new(0, 3), Span::new(20, 23)]
    );
}

#[test]
fn distinct_names_do_not_chain() {
    let layer = layer(vec![binding("foo", 0), binding("bar", 20)]);
    assert_eq!(layer.len(), 2);
    for name in ["foo", "bar"] {
        let command = layer.get(name).expect(name);
        assert_eq!(definition_spans(command.as_ref()).len(), 1);
        assert!(command.redefines.is_none());
    }
}

#[test]
fn a_builtin_command_is_defined_nowhere() {
    let repeat = reserved().get("repeat").expect("repeat");
    assert!(definition_spans(repeat.as_ref()).is_empty());
}

/// What hover shows for `name` in `src`, without the code fence.
fn shown(src: &str, name: &str) -> Option<String> {
    let document = document(src);
    let command = document.commands_defined.get(name).expect("bound");
    let Behaviour::Variable { value: Some(value) } = &command.behaviour else {
        return None;
    };
    let text = &value.source[value.span.start..value.span.end];
    let markdown = summarise(name, value, &Some(tree(text)))?;
    Some(
        markdown
            .trim_start_matches("```lilypond\n")
            .trim_end_matches("\n```")
            .to_string(),
    )
}

/// `body` on `lines` lines, to push a value past what is shown in full.
fn long(lines: usize) -> String {
    vec!["c d e f"; lines].join("\n")
}

#[test]
fn a_short_value_is_shown_in_full() {
    assert_eq!(
        shown("myvar = \\relative c' { c d e }\n", "myvar").as_deref(),
        Some("myvar = \\relative c' { c d e }")
    );
}

#[test]
fn a_value_of_five_lines_is_still_shown_in_full() {
    let src = format!("myvar = {{\n{}\n}}\n", long(3));
    assert_eq!(
        shown(&src, "myvar").as_deref(),
        Some(format!("myvar = {{\n{}\n}}", long(3)).as_str())
    );
}

#[test]
fn a_long_value_keeps_the_command_and_loses_the_music() {
    let src = format!("myvar = \\relative c' {{\n{}\n}}\n", long(9));
    assert_eq!(
        shown(&src, "myvar").as_deref(),
        Some("myvar = \\relative c' { … }")
    );
}

#[test]
fn a_long_value_in_a_mode_keeps_the_mode() {
    let src = format!("mylyrics = \\lyricmode {{\n{}\n}}\n", long(9));
    assert_eq!(
        shown(&src, "mylyrics").as_deref(),
        Some("mylyrics = \\lyricmode { … }")
    );
}

#[test]
fn a_command_wrapped_in_a_block_is_kept_too() {
    let src = format!("myvar = {{\n  \\fixed c' {{\n{}\n}}\n}}\n", long(9));
    assert_eq!(
        shown(&src, "myvar").as_deref(),
        Some("myvar = { \\fixed c' { … } }")
    );
}

#[test]
fn a_transposition_keeps_both_its_pitches() {
    let src = format!(
        "myvar = \\transpose c d \\relative c' {{\n{}\n}}\n",
        long(9)
    );
    assert_eq!(
        shown(&src, "myvar").as_deref(),
        Some("myvar = \\transpose c d \\relative c' { … }")
    );
}

#[test]
fn a_block_holding_more_than_one_command_is_elided_whole() {
    let src = format!(
        "myvar = {{\n  \\clef bass\n  \\relative c {{\n{}\n}}\n}}\n",
        long(9)
    );
    assert_eq!(shown(&src, "myvar").as_deref(), Some("myvar = { … }"));
}

#[test]
fn a_long_value_with_no_shape_at_all_says_nothing() {
    let lines = ["  (display \"la\")"; 9].join("\n");
    let src = format!("myvar = #(begin\n{lines})\n");
    assert_eq!(shown(&src, "myvar"), None);
}

#[test]
fn a_name_bound_to_nothing_we_can_see_says_nothing() {
    let variable = Variable::new("break");
    assert!(variable.documentation(&tree_sitter_json::LANGUAGE.into()).is_none());
}

/// The layer of an installation whose files hold these texts.
fn installed(sources: Vec<&str>, ly_dir: &str) -> Layer {
    let sources: Vec<String> = sources.into_iter().map(str::to_string).collect();
    let trees: Vec<Option<SyntaxTree>> = sources.iter().map(|src| Some(tree(src))).collect();
    load_parsed(&sources, &trees, &Vec::new(), &Vec::new(), ly_dir, 10)
}

#[test]
fn a_missing_directory_yields_an_empty_layer_rather_than_failing() {
    let layer = load(
        &Vec::new(),
        &Vec::new(),
        "/does/not/exist/ever/ly",
        &tree_sitter_json::LANGUAGE.into(),
        10,
    );
    assert!(layer.is_empty());
}

#[test]
fn the_layer_is_named_for_the_version_it_read() {
    assert_eq!(origin("/usr/share/lilypond/2.24.3/ly"), "lilypond-2.24.3");
}

#[test]
fn reads_a_zero_argument_command_from_a_declared_file() {
    let layer = installed(
        vec!["break = #(make-music 'LineBreakEvent 'break-permission 'force)\n"],
        "/usr/share/lilypond/2.24.3/ly",
    );
    let command = layer.get("break").expect("break");
    assert!(command.params.is_empty());
    assert!(command.definition.is_none());
}

#[test]
fn a_later_file_in_the_list_wins_over_an_earlier_one() {
    let layer = installed(
        vec![
            "dup = #(define-music-function (m) (ly:music?) m)\n",
            "dup = #(define-music-function (a b) (ly:music? ly:music?) a)\n",
        ],
        "/usr/share/lilypond/2.24.3/ly",
    );
    assert_eq!(layer.get("dup").expect("dup").params.len(), 2);
}

#[test]
fn only_a_share_directory_of_lilypond_names_a_version() {
    assert_eq!(version("/usr/share/lilypond/2.24.3"), Some("2.24.3"));
    assert_eq!(version("share/lilypond/2.24.3/"), Some("2.24.3"));
    assert_eq!(version("/usr/share/lilypond"), None);
    assert_eq!(version("/opt/lilypond/2.24.3"), None);
    assert_eq!(version("/usr/share/lilypond/.."), None);
    assert_eq!(version("/2.24.3"), None);
    assert_eq!(version(""), None);
    assert_eq!(origin("/usr/share/lilypond/ly"), "lilypond");
    assert_eq!(origin("/home/me/lilypond/2.24.3/ly"), "lilypond");
    assert_eq!(origin("ly"), "lilypond");
}

#[test]
fn a_word_list_names_one_command_on_a_line() {
    let text = "\\break\r\n  \\relative \n\nnot a word\n\\\n\\clef";
    assert_eq!(listed_words(text), vec!["break", "relative", "", "clef"]);
    assert!(listed_words("").is_empty());
}

#[test]
fn a_backslash_separates_components_where_the_machine_says_so() {
    let path = "C:\\lilypond\\share\\lilypond\\2.24.3\\";
    assert_eq!(version_on(path, true), Some("2.24.3"));
    assert_eq!(version_on(path, false), None);
    assert_eq!(version_on("C:\\share/lilypond\\2.24.3", true), Some("2.24.3"));
    assert_eq!(version(path), version_on(path, std::path::is_separator('\\')));
    assert_eq!(origin_on("C:\\share\\lilypond\\2.24.3\\ly", true), "lilypond-2.24.3");
    assert_eq!(origin_on("C:\\share\\lilypond\\2.24.3\\ly", false), "lilypond");
    assert_eq!(version_on("/usr/share/lilypond/2.24.3", true), Some("2.24.3"));
}
