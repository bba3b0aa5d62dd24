use ly_lsp::command::Arg;
use ly_lsp::command::calls::Commands;
use ly_lsp::command::collect::collect_calls;
use ly_lsp::document::{Change, Document, NoteAnalysis, Symbol};
use ly_lsp::grammar::{Row, tree_of};
use ly_lsp::line_struct::LineIndex;
use ly_lsp::note_names::{NoteLanguage, NoteName};
use ly_lsp::protocol::{Diagnostic, Position, Range, Severity};
use ly_lsp::scope::Base;
use ly_lsp::syntax::SyntaxTree;
use ly_lsp::vocabulary::Scope;
use std::sync::Arc;

/// Reads LilyPond source into rows, with the shapes that the LilyPond grammar gives it.
#[allow(dead_code)]
struct Reader<'a> {
    src: &'a str,
    at: usize,
    rows: Vec<Row>,
}

#[allow(dead_code)]
impl<'a> Reader<'a> {
    fn rest(&self) -> &'a str {
        &self.src[self.at..]
    }

    fn peek(&self) -> Option<char> {
        self.rest().chars().next()
    }

    fn skip_white(&mut self) {
        while let Some(c) = self.peek() {
            if !c.is_whitespace() {
                break;
            }
            self.at += c.len_utf8();
        }
    }

    fn push(&mut self, kind: &str, named: bool, depth: u32) -> usize {
        self.rows.push(Row {
            kind: kind.to_string(),
            start: self.at,
            end: self.at,
            named,
            missing: false,
            error: kind == "ERROR",
            has_error: false,
            depth,
        });
        self.rows.len() - 1
    }

    fn close(&mut self, row: usize) {
        self.rows[row].end = self.at;
    }

    fn token(&mut self, kind: &str, named: bool, depth: u32, len: usize) {
        let row = self.push(kind, named, depth);
        self.at += len;
        self.close(row);
    }

    /// The length of the word at the start of `text`.
    fn word_len(text: &str) -> usize {
        let bytes = text.as_bytes();
        let mut n: usize = 0;
        loop {
            while n < bytes.len() && bytes[n].is_ascii_alphabetic() {
                n += 1;
            }
            let joined = n > 0
                && n + 1 < bytes.len()
                && (bytes[n] == b'-' || bytes[n] == b'_')
                && bytes[n + 1].is_ascii_alphabetic();
            if !joined {
                return n;
            }
            n += 1;
        }
    }

    fn string(&mut self, depth: u32, prefix: &str) {
        let rest = self.rest();
        let bytes = rest.as_bytes();
        let mut n: usize = 1;
        while n < bytes.len() && bytes[n] != b'"' {
            n += if bytes[n] == b'\\' { 2 } else { 1 };
        }
        if n >= bytes.len() {
            self.token("\"", false, depth, 1);
            return;
        }
        let end = self.at + n;
        let string = self.push(&format!("{prefix}string"), true, depth);
        self.token("\"", false, depth + 1, 1);
        while self.at < end {
            if self.peek() == Some('\\') {
                self.token(&format!("{prefix}escape_sequence"), true, depth + 1, 2);
            } else {
                let len = self.src[self.at..end].find('\\').unwrap_or(end - self.at);
                self.token(&format!("{prefix}string_fragment"), true, depth + 1, len);
            }
        }
        self.token("\"", false, depth + 1, 1);
        self.close(string);
    }

    fn scheme(&mut self, depth: u32) {
        self.skip_white();
        let rest = self.rest();
        if rest.starts_with('(') {
            let list = self.push("scheme_list", true, depth);
            self.token("(", false, depth + 1, 1);
            loop {
                self.skip_white();
                match self.peek() {
                    None => {
                        self.rows[list].kind = "ERROR".to_string();
                        self.rows[list].error = true;
                        break;
                    }
                    Some(')') => {
                        self.token(")", false, depth + 1, 1);
                        break;
                    }
                    Some(_) => self.scheme(depth + 1),
                }
            }
            self.close(list);
        } else if rest.starts_with('"') {
            self.string(depth, "scheme_");
        } else if rest.starts_with("#{") {
            let len = rest.find("#}").map_or(rest.len(), |n| n + 2);
            self.token("scheme_embedded_lilypond", true, depth, len);
        } else if rest.starts_with(';') {
            let len = rest.find('\n').unwrap_or(rest.len());
            self.token("comment", true, depth, len);
        } else if rest.starts_with('\'') {
            let quote = self.push("scheme_quote", true, depth);
            self.token("'", false, depth + 1, 1);
            self.scheme(depth + 1);
            self.close(quote);
        } else {
            let len = rest
                .find(|c: char| c.is_whitespace() || c == '(' || c == ')' || c == '"')
                .unwrap_or(rest.len())
                .max(1);
            let digits = rest[..len].chars().all(|c| c.is_ascii_digit() || c == '-');
            let kind = if digits { "scheme_number" } else { "scheme_symbol" };
            self.token(kind, true, depth, len);
        }
    }

    /// Everything from `open` to `close`, as one node.
    fn block(&mut self, kind: &str, depth: u32, open: &str, close: &str) {
        let block = self.push(kind, true, depth);
        self.token(open, false, depth + 1, open.len());
        self.row(depth + 1, Some(close));
        if self.rest().starts_with(close) {
            self.token(close, false, depth + 1, close.len());
        } else {
            self.rows[block].kind = "ERROR".to_string();
            self.rows[block].error = true;
        }
        self.close(block);
    }

    fn path(&mut self, depth: u32, end: usize) {
        let text = &self.src[self.at..end];
        if !text.contains('.') {
            self.token("symbol", true, depth, text.len());
            return;
        }
        let path = self.push("property_expression", true, depth);
        while self.at < end {
            let rest = &self.src[self.at..end];
            if rest.starts_with('.') {
                self.token("punctuation", true, depth + 1, 1);
            } else {
                let len = rest.find('.').unwrap_or(rest.len());
                self.token("symbol", true, depth + 1, len);
            }
        }
        self.close(path);
    }

    fn word(&mut self, depth: u32) {
        let rest = self.rest();
        let mut end: usize = Self::word_len(rest);
        while rest[end..].starts_with('.') && Self::word_len(&rest[end + 1..]) > 0 {
            end = end + 1 + Self::word_len(&rest[end + 1..]);
        }
        let behind = rest[end..].trim_start();
        let assigned = behind.starts_with('=')
            && !behind.starts_with("='")
            && !behind.starts_with("=,");
        let end = self.at + end;
        if assigned {
            let lhs = self.push("assignment_lhs", true, depth);
            self.path(depth + 1, end);
            self.close(lhs);
        } else {
            self.path(depth, end);
        }
    }

    fn command(&mut self, depth: u32) {
        let rest = self.rest();
        let len = 1 + Self::word_len(&rest[1..]);
        if len == 1 {
            let len = rest.chars().take(2).map(char::len_utf8).sum();
            self.token("escaped_word", true, depth, len);
            return;
        }
        let word = &rest[..len];
        let behind = rest[len..].trim_start();
        let typed = behind.starts_with(|c: char| c.is_ascii_alphabetic());
        if (word == "\\new" || word == "\\context") && typed {
            let context = self.push("named_context", true, depth);
            self.token("escaped_word", true, depth + 1, len);
            self.skip_white();
            let len = Self::word_len(self.rest());
            self.token("symbol", true, depth + 1, len);
            self.close(context);
            if self.rest().trim_start().starts_with('=') {
                self.skip_white();
                self.token("punctuation", true, depth + 1, 1);
                self.close(context);
                let behind = self.rest().trim_start();
                if behind.starts_with('"') {
                    self.skip_white();
                    self.string(depth + 1, "");
                    self.close(context);
                } else if Self::word_len(behind) > 0 {
                    self.skip_white();
                    let len = Self::word_len(self.rest());
                    self.token("symbol", true, depth + 1, len);
                    self.close(context);
                }
            }
        } else if word == "\\new" {
            let error = self.push("ERROR", true, depth);
            self.token("escaped_word", true, depth + 1, len);
            self.close(error);
        } else {
            self.token("escaped_word", true, depth, len);
        }
    }

    fn item(&mut self, depth: u32) {
        let rest = self.rest();
        let c = self.peek().unwrap();
        if rest.starts_with("%{") {
            let len = rest.find("%}").map_or(rest.len(), |n| n + 2);
            self.token("comment", true, depth, len);
        } else if c == '%' {
            let len = rest.find('\n').unwrap_or(rest.len());
            self.token("comment", true, depth, len);
        } else if c == '"' {
            self.string(depth, "");
        } else if c == '\\' {
            self.command(depth);
        } else if c == '{' {
            self.block("expression_block", depth, "{", "}");
        } else if rest.starts_with("<<") {
            self.block("parallel_music", depth, "<<", ">>");
        } else if c == '<' {
            self.block("chord", depth, "<", ">");
        } else if c == '}' {
            let error = self.push("ERROR", true, depth);
            self.token("}", false, depth + 1, 1);
            self.close(error);
        } else if c == '#' || c == '$' {
            let scheme = self.push("embedded_scheme", true, depth);
            self.token("embedded_scheme_prefix", true, depth + 1, 1);
            let text = self.push("embedded_scheme_text", true, depth + 1);
            self.scheme(depth + 2);
            self.close(text);
            self.close(scheme);
        } else if c.is_ascii_digit() {
            let len = rest.find(|c: char| !c.is_ascii_digit()).unwrap_or(rest.len());
            let behind = &rest[len..];
            if behind.starts_with('/') && behind[1..].starts_with(|c: char| c.is_ascii_digit()) {
                let more = behind[1..]
                    .find(|c: char| !c.is_ascii_digit())
                    .unwrap_or(behind.len() - 1);
                self.token("fraction", true, depth, len + 1 + more);
            } else {
                self.token("unsigned_integer", true, depth, len);
            }
        } else if c.is_ascii_alphabetic() {
            self.word(depth);
        } else {
            self.token("punctuation", true, depth, c.len_utf8());
        }
    }

    /// Everything up to `close`, or to the end.
    fn row(&mut self, depth: u32, close: Option<&str>) {
        loop {
            self.skip_white();
            if self.rest().is_empty() {
                return;
            }
            if close.is_some_and(|close| self.rest().starts_with(close)) {
                return;
            }
            self.item(depth);
        }
    }
}

/// The syntax tree of `src`.
#[allow(dead_code)]
fn tree(src: &str) -> SyntaxTree {
    let mut reader = Reader { src, at: 0, rows: Vec::new() };
    let root = reader.push("lilypond_program", true, 0);
    reader.row(1, None);
    reader.at = src.len();
    reader.close(root);
    let mut rows = reader.rows;
    for i in 0..rows.len() {
        let mut stop: usize = i + 1;
        while stop < rows.len() && rows[stop].depth > rows[i].depth {
            stop += 1;
        }
        let wrong = rows[i..stop].iter().any(|row| row.error || row.missing);
        rows[i].has_error = wrong;
    }
    tree_of(rows).expect("one tree")
}

/// The Dutch note names.
#[allow(dead_code)]
fn dutch() -> NoteLanguage {
    let mut notes: Vec<NoteName> = Vec::new();
    for (note_name, letter) in ["c", "d", "e", "f", "g", "a", "b"].iter().enumerate() {
        for (suffix, alteration) in [("", 0i8), ("is", 1), ("es", -1)] {
            notes.push(NoteName {
                text: format!("{letter}{suffix}"),
                note_name: note_name as u8,
                alteration,
            });
        }
    }
    NoteLanguage { name: "nederlands".to_string(), notes }
}

/// This library's own layers.
#[allow(dead_code)]
fn base() -> Base {
    Base::builtins(vec![Arc::new(dutch())])
}

/// The scope of a file that defines nothing.
#[allow(dead_code)]
fn builtins_only() -> Scope {
    base().for_document(&Vec::new())
}

/// Every call of `src`, in source order.
#[allow(dead_code)]
fn calls_of(tree: &SyntaxTree, src: &str, scope: &Scope) -> Commands {
    collect_calls(tree, src, &dutch(), scope)
}

/// The document of a file called `origin`, and the scope it makes on its own.
#[allow(dead_code)]
fn named(origin: &str, src: &str, id: u64) -> (Document, Scope) {
    let mut document =
        Document::from_parts(src.to_string(), tree(src), Arc::new(origin.to_string()), id);
    let scope = base().for_document(&vec![document.commands_defined.clone()]);
    let commands = calls_of(&document.tree, src, &scope);
    let notes = NoteAnalysis { events: Vec::new(), commands, problems: Vec::new() };
    document.refresh(&scope, notes);
    (document, scope)
}

#[allow(dead_code)]
fn document(src: &str) -> Document {
    named("untitled", src, 10).0
}

fn names(symbols: &[Symbol]) -> Vec<&str> {
    symbols.iter().map(|s| s.name.as_str()).collect()
}

/// A change that replaces `range` with `text`.
fn change(range: Range, text: &str) -> Change {
    Change { range: Some(range), text: text.to_string() }
}

/// The document after a change.
fn edited(doc: Document, change: Change) -> Document {
    document(&doc.changed_text(&change))
}

fn undefined_references(doc: &Document) -> Vec<Diagnostic> {
    let scope = base().for_document(&vec![doc.commands_defined.clone()]);
    doc.undefined_reference_diagnostics(&scope)
}

#[test]
fn full_replacement_change_replaces_document() {
    let doc = edited(
        document("foo = { c }\n"),
        Change { range: None, text: "baz = { e }\n\\baz\n".to_string() },
    );
    assert_eq!(names(&doc.definitions), vec!["baz"]);
    assert_eq!(names(&doc.references), vec!["baz"]);
    assert!(doc.definition_ranges("foo").is_empty());
}

#[test]
fn a_variable_reference_consumes_nothing_after_it() {
    let doc = document("foo = { c }\n{ \\foo { d e } }\n");
    assert!(doc.diagnostics().is_empty());
    let call = doc
        .notes
        .commands
        .calls
        .iter()
        .find(|call| call.name == "foo")
        .expect("a call to the variable");
    assert!(call.args.is_empty());
}

#[test]
fn finds_top_level_definition() {
    let doc = document("foo = { c d e }");
    assert_eq!(names(&doc.definitions), vec!["foo"]);
}

#[test]
fn finds_reference() {
    let doc = document("\\foo");
    assert_eq!(names(&doc.references), vec!["foo"]);
}

#[test]
fn header_field_is_not_a_definition() {
    let doc = document("\\header { title = \"X\" }");
    assert!(doc.definitions.is_empty());
}

#[test]
fn override_property_is_not_a_definition() {
    let doc = document("\\score { \\override NoteHead.color = #red }");
    assert!(doc.definitions.is_empty());
}

#[test]
fn builtins_are_references_without_definitions() {
    let doc = document("\\relative c' { c d e }");
    assert_eq!(names(&doc.references), vec!["relative"]);
    assert!(doc.definition_ranges("relative").is_empty());
}

#[test]
fn comment_contents_are_ignored() {
    let doc = document("% foo = \\bar\nbaz = { c }\n");
    assert_eq!(names(&doc.definitions), vec!["baz"]);
    assert!(doc.references.is_empty());
}

#[test]
fn string_contents_are_ignored() {
    let doc = document("title = \"a \\foo b\"");
    assert!(doc.references.is_empty());
}

#[test]
fn symbol_at_definition_and_reference() {
    let src = "foo = { c }\n\\foo\n";
    let doc = document(src);
    assert_eq!(doc.symbol_at(Position::new(0, 1)), Some("foo"));
    assert_eq!(doc.symbol_at(Position::new(1, 2)), Some("foo"));
    assert_eq!(doc.symbol_at(Position::new(0, 4)), None);
}

#[test]
fn definition_and_reference_ranges() {
    let src = "foo = { c }\n\\foo\n";
    let doc = document(src);
    let defs = doc.definition_ranges("foo");
    assert_eq!(
        defs,
        vec![Range::new(Position::new(0, 0), Position::new(0, 3))]
    );
    let refs = doc.reference_ranges("foo");
    assert_eq!(
        refs,
        vec![Range::new(Position::new(1, 0), Position::new(1, 4))]
    );
}

#[test]
fn utf16_positions_account_for_wide_characters() {
    let src = "% café 𝄞\nfoo = 1\n";
    let doc = document(src);
    let defs = doc.definition_ranges("foo");
    assert_eq!(
        defs,
        vec![Range::new(Position::new(1, 0), Position::new(1, 3))]
    );

    let index = LineIndex::new(src);
    let pos = Position::new(1, 0);
    let offset = index.offset_at(pos).unwrap();
    assert_eq!(index.position_at(offset), pos);
}

#[test]
fn multiple_references_to_same_variable() {
    let src = "foo = { c }\n\\foo \\foo\n";
    let doc = document(src);
    assert_eq!(doc.reference_ranges("foo").len(), 2);
}

#[test]
fn incremental_edit_renames_definition() {
    let doc = edited(document("foo = { c }\n\\foo\n"), change(
        Range::new(Position::new(0, 0), Position::new(0, 3)),
        "bar",
    ));

    assert_eq!(names(&doc.definitions), vec!["bar"]);
    assert_eq!(doc.definition_ranges("bar").len(), 1);
    assert!(doc.definition_ranges("foo").is_empty());
    assert_eq!(names(&doc.references), vec!["foo"]);
}

#[test]
fn incremental_insert_shifts_later_positions() {
    let doc = edited(document("foo = { c }\n\\foo\n"), change(
        Range::new(Position::new(0, 0), Position::new(0, 0)),
        "bar = { d }\n",
    ));

    assert_eq!(names(&doc.definitions), vec!["bar", "foo"]);
    assert_eq!(
        doc.definition_ranges("foo"),
        vec![Range::new(Position::new(1, 0), Position::new(1, 3))]
    );
    assert_eq!(
        doc.reference_ranges("foo"),
        vec![Range::new(Position::new(2, 0), Position::new(2, 4))]
    );
}

#[test]
fn well_formed_source_has_no_diagnostics() {
    let doc = document("foo = { c d e }\n\\foo\n");
    assert!(doc.diagnostics().is_empty());
}

#[test]
fn repeat_with_a_valid_kind_is_not_flagged() {
    let doc = document("\\repeat volta 2 { c }");
    assert!(doc.diagnostics().is_empty());
}

#[test]
fn repeat_with_an_unrecognised_kind_is_flagged() {
    let doc = document("\\repeat bogus 2 { c }");
    let diagnostics = doc.diagnostics();
    assert_eq!(diagnostics.len(), 1);
    assert_eq!(diagnostics[0].severity, Severity::Error);
    assert!(diagnostics[0].message.contains("bogus"));
    assert_eq!(
        diagnostics[0].range,
        Range::new(Position::new(0, 8), Position::new(0, 13))
    );
}

#[test]
fn repeat_with_a_count_of_one_is_not_flagged() {
    let doc = document("\\repeat unfold 1 { c }");
    assert!(doc.diagnostics().is_empty());
}

#[test]
fn repeat_with_a_count_of_zero_is_flagged() {
    let doc = document("\\repeat unfold 0 { c }");
    let diagnostics = doc.diagnostics();
    assert_eq!(diagnostics.len(), 1);
    assert_eq!(diagnostics[0].severity, Severity::Error);
    assert!(diagnostics[0].message.contains('0'));
}

#[test]
fn volta_is_never_flagged_regardless_of_enclosing_context() {
    for src in [
        "\\repeat volta 2 { \\volta 1 { c } }",
        "\\repeat segno 2 { \\volta 1 { c } }",
        "\\repeat unfold 2 { \\volta 1 { c } }",
        "{ \\volta 1 { c } }",
    ] {
        let doc = document(src);
        assert!(doc.diagnostics().is_empty(), "flagged: {src}");
    }
}

#[test]
fn unclosed_brace_is_reported_at_the_brace() {
    let doc = document("foo = { c d e\n");
    let diagnostics = doc.diagnostics();
    assert_eq!(diagnostics.len(), 1);
    assert_eq!(diagnostics[0].severity, Severity::Error);
    assert_eq!(diagnostics[0].message, "unclosed `{`");
    assert_eq!(
        diagnostics[0].range,
        Range::new(Position::new(0, 6), Position::new(0, 7))
    );
}

#[test]
fn unclosed_quote_is_reported_at_the_quote() {
    let doc = document("foo = { c \"hello\n");
    let messages: Vec<String> = doc.diagnostics().into_iter().map(|d| d.message).collect();
    assert!(
        messages.iter().any(|m| m == "unclosed `\"`"),
        "expected an unclosed-quote diagnostic, got {messages:?}"
    );
}

#[test]
fn unmatched_close_brace_is_reported_at_the_brace() {
    let doc = document("foo = { c d } }\n");
    let diagnostics = doc.diagnostics();
    assert_eq!(diagnostics.len(), 1);
    assert_eq!(diagnostics[0].message, "unmatched `}`");
    assert_eq!(
        diagnostics[0].range,
        Range::new(Position::new(0, 14), Position::new(0, 15))
    );
}

#[test]
fn parses_include_directives() {
    let doc =
        document("\\include \"notes.ily\"\n\\include \"parts/violin.ily\"\n");
    let paths: Vec<&str> = doc.includes.iter().map(|i| i.path.as_str()).collect();
    assert_eq!(paths, vec!["notes.ily", "parts/violin.ily"]);
    assert!(doc.references.is_empty());
}

#[test]
fn include_at_finds_path_under_cursor() {
    let doc = document("\\include \"notes.ily\"\n");
    assert_eq!(doc.include_at(Position::new(0, 12)), Some("notes.ily"));
    assert_eq!(doc.include_at(Position::new(0, 2)), None);
}

#[test]
fn bracket_at_sequential_music() {
    let doc = document("foo = { c d e }\n");
    let (open, close) = doc.bracket_at(Position::new(0, 6)).expect("bracket pair");
    assert_eq!(open, Range::new(Position::new(0, 6), Position::new(0, 7)));
    assert_eq!(
        close,
        Range::new(Position::new(0, 14), Position::new(0, 15))
    );
    let (close2, open2) = doc.bracket_at(Position::new(0, 14)).expect("bracket pair");
    assert_eq!(
        close2,
        Range::new(Position::new(0, 14), Position::new(0, 15))
    );
    assert_eq!(open2, Range::new(Position::new(0, 6), Position::new(0, 7)));
}

#[test]
fn bracket_at_simultaneous_music() {
    let doc = document("<< { c } { d } >>\n");
    let (open, close) = doc.bracket_at(Position::new(0, 0)).expect("bracket pair");
    assert_eq!(open, Range::new(Position::new(0, 0), Position::new(0, 2)));
    assert_eq!(
        close,
        Range::new(Position::new(0, 15), Position::new(0, 17))
    );
}

#[test]
fn bracket_at_chord() {
    let doc = document("{ <c e g> }\n");
    let (open, close) = doc
        .bracket_at(Position::new(0, 2))
        .expect("chord bracket pair");
    assert_eq!(open, Range::new(Position::new(0, 2), Position::new(0, 3)));
    assert_eq!(close, Range::new(Position::new(0, 8), Position::new(0, 9)));
}

#[test]
fn bracket_at_note_returns_none() {
    let doc = document("{ c d e }\n");
    assert!(doc.bracket_at(Position::new(0, 2)).is_none());
}

#[test]
fn music_function_definition_resolves_its_reference() {
    let doc = document(
        "myFunc = #(define-music-function (m) (ly:music?) m)\n\\myFunc { c4 }\n");
    assert_eq!(names(&doc.definitions), vec!["myFunc"]);
    assert_eq!(names(&doc.references), vec!["myFunc"]);
    assert!(undefined_references(&doc).is_empty());
}

#[test]
fn reference_with_no_definition_anywhere_is_undefined() {
    let doc = document("\\myFunc { c4 }\n");
    assert!(doc.definitions.is_empty());
    let diagnostics = undefined_references(&doc);
    assert_eq!(diagnostics.len(), 1);
    assert!(diagnostics[0].message.contains("myFunc"));
}

#[test]
fn a_scheme_only_definition_is_both_a_symbol_and_a_command() {
    let src =
        "#(define-public myFunc (define-music-function (m) (ly:music?) m))\n\\myFunc { c4 }\n";
    let doc = document(src);

    assert_eq!(names(&doc.definitions), vec!["myFunc"]);
    let span = doc.definitions[0].span;
    assert_eq!(&src[span.start..span.end], "myFunc");
    assert_eq!(names(&doc.references), vec!["myFunc"]);
    assert!(undefined_references(&doc).is_empty());
    assert!(
        doc.commands_defined.get("myFunc").is_some(),
        "and it carries a signature, being a definition form"
    );
}

#[test]
fn a_scheme_binding_of_a_plain_value_is_a_definition_with_no_signature() {
    let doc = document("#(define-public myColour \"red\")\n\\myColour\n");
    assert_eq!(names(&doc.definitions), vec!["myColour"]);
    assert!(undefined_references(&doc).is_empty());
    assert!(
        doc.commands_defined
            .get("myColour")
            .expect("a definition, callable as \\myColour")
            .params
            .is_empty()
    );
}

#[test]
fn a_scheme_procedure_is_not_a_definition() {
    let doc = document("#(define (helper x) (* x 2))\n");
    assert!(doc.definitions.is_empty());
}

#[test]
fn a_name_assigned_twice_keeps_both_definitions() {
    let doc = document("foo = { c }\nbar = { d }\nfoo = { e }\n");
    assert_eq!(names(&doc.definitions), vec!["foo", "bar", "foo"]);
    assert_eq!(
        doc.definition_ranges("foo"),
        vec![
            Range::new(Position::new(0, 0), Position::new(0, 3)),
            Range::new(Position::new(2, 0), Position::new(2, 3)),
        ]
    );
}

#[test]
fn a_reference_resolves_to_the_definition_in_effect_where_it_is_written() {
    let src = "foo = { c }\npartOne = { \\foo }\nfoo = { d }\npartTwo = { \\foo }\n";
    let doc = document(src);
    let first = src.find("\\foo").expect("the first reference");
    let second = src.rfind("\\foo").expect("the second reference");

    assert_eq!(
        doc.definition_in_effect("foo", Some(first)),
        Some(Range::new(Position::new(0, 0), Position::new(0, 3)))
    );
    assert_eq!(
        doc.definition_in_effect("foo", Some(second)),
        Some(Range::new(Position::new(2, 0), Position::new(2, 3)))
    );
}

#[test]
fn without_a_position_the_last_definition_is_the_one_in_effect() {
    let doc = document("foo = { c }\nfoo = { d }\n");
    assert_eq!(
        doc.definition_in_effect("foo", None),
        Some(Range::new(Position::new(1, 0), Position::new(1, 3)))
    );
}

#[test]
fn a_reference_before_every_definition_falls_back_to_the_first() {
    let src = "partOne = { \\foo }\nfoo = { c }\n";
    let doc = document(src);
    assert_eq!(
        doc.definition_in_effect("foo", Some(src.find("\\foo").unwrap())),
        Some(Range::new(Position::new(1, 0), Position::new(1, 3)))
    );
}

#[test]
fn a_cursor_on_a_definition_resolves_to_that_definition() {
    let src = "foo = { c }\nfoo = { d }\n";
    let doc = document(src);
    assert_eq!(
        doc.definition_in_effect("foo", Some(0)),
        Some(Range::new(Position::new(0, 0), Position::new(0, 3)))
    );
}

#[test]
fn a_later_definition_wins_and_carries_the_one_it_replaced() {
    let src = "myFunc = { c }\n\
               myFunc = #(define-music-function (m) (ly:music?) m)\n";
    let doc = document(src);
    let my_func = doc.commands_defined.get("myFunc").expect("myFunc");
    assert_eq!(my_func.params.len(), 1);
    let replaced = my_func.redefines.as_ref().expect("the plain variable it replaced");
    assert!(replaced.params.is_empty());
}

#[test]
fn a_documents_own_music_function_is_in_scope_for_its_own_calls() {
    let doc = document(
        "myFunc = #(define-music-function (from music) (ly:pitch? ly:music?) music)\n\
         \\myFunc c' { c4 }\n");
    let call = doc
        .notes
        .commands
        .calls
        .iter()
        .find(|call| call.name == "myFunc")
        .expect("the call is parsed against its own definition");
    assert!(matches!(call.args[0], Arg::Pitch { .. }));
    assert!(matches!(call.args[1], Arg::Music { .. }));
}

#[test]
fn edit_into_a_comment_drops_the_definition() {
    let doc = edited(document("foo = { c }\n"), change(
        Range::new(Position::new(0, 0), Position::new(0, 0)),
        "% ",
    ));
    assert!(doc.definitions.is_empty());
}

#[test]
fn an_included_path_is_read_up_to_its_first_escape() {
    let doc = document("\\include \"parts/\\\"first\\\" violin.ily\"\n");
    let paths: Vec<&str> = doc.includes.iter().map(|i| i.path.as_str()).collect();
    assert_eq!(paths, vec!["parts/"]);
}
