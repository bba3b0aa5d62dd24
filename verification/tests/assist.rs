use ly_lsp::command::behaviour::CompletionContext;
use ly_lsp::command::calls::Commands;
use ly_lsp::command::collect::collect_calls;
use ly_lsp::command_assist::{CompletionItem, Hover, completions, hover, signature_help};
use ly_lsp::document::{Change, Document, NoteAnalysis};
use ly_lsp::grammar::{Row, tree_of};
use ly_lsp::note_names::{NoteLanguage, NoteName};
use ly_lsp::protocol::{Position, Range};
use ly_lsp::scope::Base;
use ly_lsp::syntax::SyntaxTree;
use ly_lsp::vocabulary::Scope;
use std::sync::Arc;

/// Reads LilyPond source into rows, with the shapes that the LilyPond grammar gives it.
#[allow(dead_code)]
struct Reader<'a> {
    src: &'a str,
    at: usize,
    rows: Vec<Row>,
}

#[allow(dead_code)]
impl<'a> Reader<'a> {
    fn rest(&self) -> &'a str {
        &self.src[self.at..]
    }

    fn peek(&self) -> Option<char> {
        self.rest().chars().next()
    }

    fn skip_white(&mut self) {
        while let Some(c) = self.peek() {
            if !c.is_whitespace() {
                break;
            }
            self.at += c.len_utf8();
        }
    }

    fn push(&mut self, kind: &str, named: bool, depth: u32) -> usize {
        self.rows.push(Row {
            kind: kind.to_string(),
            start: self.at,
            end: self.at,
            named,
            missing: false,
            error: kind == "ERROR",
            has_error: false,
            depth,
        });
        self.rows.len() - 1
    }

    fn close(&mut self, row: usize) {
        self.rows[row].end = self.at;
    }

    fn token(&mut self, kind: &str, named: bool, depth: u32, len: usize) {
        let row = self.push(kind, named, depth);
        self.at += len;
        self.close(row);
    }

    /// The length of the word at the start of `text`.
    fn word_len(text: &str) -> usize {
        let bytes = text.as_bytes();
        let mut n: usize = 0;
        loop {
            while n < bytes.len() && bytes[n].is_ascii_alphabetic() {
                n += 1;
            }
            let joined = n > 0
                && n + 1 < bytes.len()
                && (bytes[n] == b'-' || bytes[n] == b'_')
                && bytes[n + 1].is_ascii_alphabetic();
            if !joined {
                return n;
            }
            n += 1;
        }
    }

    fn string(&mut self, depth: u32, prefix: &str) {
        let rest = self.rest();
        let bytes = rest.as_bytes();
        let mut n: usize = 1;
        while n < bytes.len() && bytes[n] != b'"' {
            n += if bytes[n] == b'\\' { 2 } else { 1 };
        }
        if n >= bytes.len() {
            self.token("\"", false, depth, 1);
            return;
        }
        let end = self.at + n;
        let string = self.push(&format!("{prefix}string"), true, depth);
        self.token("\"", false, depth + 1, 1);
        while self.at < end {
            if self.peek() == Some('\\') {
                self.token(&format!("{prefix}escape_sequence"), true, depth + 1, 2);
            } else {
                let len = self.src[self.at..end].find('\\').unwrap_or(end - self.at);
                self.token(&format!("{prefix}string_fragment"), true, depth + 1, len);
            }
        }
        self.token("\"", false, depth + 1, 1);
        self.close(string);
    }

    fn scheme(&mut self, depth: u32) {
        self.skip_white();
        let rest = self.rest();
        if rest.starts_with('(') {
            let list = self.push("scheme_list", true, depth);
            self.token("(", false, depth + 1, 1);
            loop {
                self.skip_white();
                match self.peek() {
                    None => {
                        self.rows[list].kind = "ERROR".to_string();
                        self.rows[list].error = true;
                        break;
                    }
                    Some(')') => {
                        self.token(")", false, depth + 1, 1);
                        break;
                    }
                    Some(_) => self.scheme(depth + 1),
                }
            }
            self.close(list);
        } else if rest.starts_with('"') {
            self.string(depth, "scheme_");
        } else if rest.starts_with("#{") {
            let len = rest.find("#}").map_or(rest.len(), |n| n + 2);
            self.token("scheme_embedded_lilypond", true, depth, len);
        } else if rest.starts_with(';') {
            let len = rest.find('\n').unwrap_or(rest.len());
            self.token("comment", true, depth, len);
        } else if rest.starts_with('\'') {
            let quote = self.push("scheme_quote", true, depth);
            self.token("'", false, depth + 1, 1);
            self.scheme(depth + 1);
            self.close(quote);
        } else {
            let len = rest
                .find(|c: char| c.is_whitespace() || c == '(' || c == ')' || c == '"')
                .unwrap_or(rest.len())
                .max(1);
            let digits = rest[..len].chars().all(|c| c.is_ascii_digit() || c == '-');
            let kind = if digits { "scheme_number" } else { "scheme_symbol" };
            self.token(kind, true, depth, len);
        }
    }

    /// Everything from `open` to `close`, as one node.
    fn block(&mut self, kind: &str, depth: u32, open: &str, close: &str) {
        let block = self.push(kind, true, depth);
        self.token(open, false, depth + 1, open.len());
        self.row(depth + 1, Some(close));
        if self.rest().starts_with(close) {
            self.token(close, false, depth + 1, close.len());
        } else {
            self.rows[block].kind = "ERROR".to_string();
            self.rows[block].error = true;
        }
        self.close(block);
    }

    fn path(&mut self, depth: u32, end: usize) {
        let text = &self.src[self.at..end];
        if !text.contains('.') {
            self.token("symbol", true, depth, text.len());
            return;
        }
        let path = self.push("property_expression", true, depth);
        while self.at < end {
            let rest = &self.src[self.at..end];
            if rest.starts_with('.') {
                self.token("punctuation", true, depth + 1, 1);
            } else {
                let len = rest.find('.').unwrap_or(rest.len());
                self.token("symbol", true, depth + 1, len);
            }
        }
        self.close(path);
    }

    fn word(&mut self, depth: u32) {
        let rest = self.rest();
        let mut end: usize = Self::word_len(rest);
        while rest[end..].starts_with('.') && Self::word_len(&rest[end + 1..]) > 0 {
            end = end + 1 + Self::word_len(&rest[end + 1..]);
        }
        let behind = rest[end..].trim_start();
        let assigned = behind.starts_with('=')
            && !behind.starts_with("='")
            && !behind.starts_with("=,");
        let end = self.at + end;
        if assigned {
            let lhs = self.push("assignment_lhs", true, depth);
            self.path(depth + 1, end);
            self.close(lhs);
        } else {
            self.path(depth, end);
        }
    }

    fn command(&mut self, depth: u32) {
        let rest = self.rest();
        let len = 1 + Self::word_len(&rest[1..]);
        if len == 1 {
            let len = rest.chars().take(2).map(char::len_utf8).sum();
            self.token("escaped_word", true, depth, len);
            return;
        }
        let word = &rest[..len];
        let behind = rest[len..].trim_start();
        let typed = behind.starts_with(|c: char| c.is_ascii_alphabetic());
        if (word == "\\new" || word == "\\context") && typed {
            let context = self.push("named_context", true, depth);
            self.token("escaped_word", true, depth + 1, len);
            self.skip_white();
            let len = Self::word_len(self.rest());
            self.token("symbol", true, depth + 1, len);
            self.close(context);
            if self.rest().trim_start().starts_with('=') {
                self.skip_white();
                self.token("punctuation", true, depth + 1, 1);
                self.close(context);
                let behind = self.rest().trim_start();
                if behind.starts_with('"') {
                    self.skip_white();
                    self.string(depth + 1, "");
                    self.close(context);
                } else if Self::word_len(behind) > 0 {
                    self.skip_white();
                    let len = Self::word_len(self.rest());
                    self.token("symbol", true, depth + 1, len);
                    self.close(context);
                }
            }
        } else if word == "\\new" {
            let error = self.push("ERROR", true, depth);
            self.token("escaped_word", true, depth + 1, len);
            self.close(error);
        } else {
            self.token("escaped_word", true, depth, len);
        }
    }

    fn item(&mut self, depth: u32) {
        let rest = self.rest();
        let c = self.peek().unwrap();
        if rest.starts_with("%{") {
            let len = rest.find("%}").map_or(rest.len(), |n| n + 2);
            self.token("comment", true, depth, len);
        } else if c == '%' {
            let len = rest.find('\n').unwrap_or(rest.len());
            self.token("comment", true, depth, len);
        } else if c == '"' {
            self.string(depth, "");
        } else if c == '\\' {
            self.command(depth);
        } else if c == '{' {
            self.block("expression_block", depth, "{", "}");
        } else if rest.starts_with("<<") {
            self.block("parallel_music", depth, "<<", ">>");
        } else if c == '<' {
            self.block("chord", depth, "<", ">");
        } else if c == '}' {
            let error = self.push("ERROR", true, depth);
            self.token("}", false, depth + 1, 1);
            self.close(error);
        } else if c == '#' || c == '$' {
            let scheme = self.push("embedded_scheme", true, depth);
            self.token("embedded_scheme_prefix", true, depth + 1, 1);
            let text = self.push("embedded_scheme_text", true, depth + 1);
            self.scheme(depth + 2);
            self.close(text);
            self.close(scheme);
        } else if c.is_ascii_digit() {
            let len = rest.find(|c: char| !c.is_ascii_digit()).unwrap_or(rest.len());
            let behind = &rest[len..];
            if behind.starts_with('/') && behind[1..].starts_with(|c: char| c.is_ascii_digit()) {
                let more = behind[1..]
                    .find(|c: char| !c.is_ascii_digit())
                    .unwrap_or(behind.len() - 1);
                self.token("fraction", true, depth, len + 1 + more);
            } else {
                self.token("unsigned_integer", true, depth, len);
            }
        } else if c.is_ascii_alphabetic() {
            self.word(depth);
        } else {
            self.token("punctuation", true, depth, c.len_utf8());
        }
    }

    /// Everything up to `close`, or to the end.
    fn row(&mut self, depth: u32, close: Option<&str>) {
        loop {
            self.skip_white();
            if self.rest().is_empty() {
                return;
            }
            if close.is_some_and(|close| self.rest().starts_with(close)) {
                return;
            }
            self.item(depth);
        }
    }
}

/// The syntax tree of `src`.
#[allow(dead_code)]
fn tree(src: &str) -> SyntaxTree {
    let mut reader = Reader { src, at: 0, rows: Vec::new() };
    let root = reader.push("lilypond_program", true, 0);
    reader.row(1, None);
    reader.at = src.len();
    reader.close(root);
    let mut rows = reader.rows;
    for i in 0..rows.len() {
        let mut stop: usize = i + 1;
        while stop < rows.len() && rows[stop].depth > rows[i].depth {
            stop += 1;
        }
        let wrong = rows[i..stop].iter().any(|row| row.error || row.missing);
        rows[i].has_error = wrong;
    }
    tree_of(rows).expect("one tree")
}

/// The Dutch note names.
#[allow(dead_code)]
fn dutch() -> NoteLanguage {
    let mut notes: Vec<NoteName> = Vec::new();
    for (note_name, letter) in ["c", "d", "e", "f", "g", "a", "b"].iter().enumerate() {
        for (suffix, alteration) in [("", 0i8), ("is", 1), ("es", -1)] {
            notes.push(NoteName {
                text: format!("{letter}{suffix}"),
                note_name: note_name as u8,
                alteration,
            });
        }
    }
    NoteLanguage { name: "nederlands".to_string(), notes }
}

/// This library's own layers.
#[allow(dead_code)]
fn base() -> Base {
    Base::builtins(vec![Arc::new(dutch())])
}

/// The scope of a file that defines nothing.
#[allow(dead_code)]
fn builtins_only() -> Scope {
    base().for_document(&Vec::new())
}

/// Every call of `src`, in source order.
#[allow(dead_code)]
fn calls_of(tree: &SyntaxTree, src: &str, scope: &Scope) -> Commands {
    collect_calls(tree, src, &dutch(), scope)
}

/// The document of a file called `origin`, and the scope it makes on its own.
#[allow(dead_code)]
fn named(origin: &str, src: &str, id: u64) -> (Document, Scope) {
    let mut document =
        Document::from_parts(src.to_string(), tree(src), Arc::new(origin.to_string()), id);
    let scope = base().for_document(&vec![document.commands_defined.clone()]);
    let commands = calls_of(&document.tree, src, &scope);
    let notes = NoteAnalysis { events: Vec::new(), commands, problems: Vec::new() };
    document.refresh(&scope, notes);
    (document, scope)
}

#[allow(dead_code)]
fn document(src: &str) -> Document {
    named("untitled", src, 10).0
}

/// A grammar to hand to what takes one. No value here is long enough to be parsed with it.
fn language() -> tree_sitter::Language {
    tree_sitter_json::LANGUAGE.into()
}

/// The document of `src` without its `|`, and the position where that stood.
fn doc_at(src: &str) -> (Document, Position) {
    let (text, offset) = cursor(src);
    let doc = document(&text);
    let position = doc.line_index.position_at(offset);
    (doc, position)
}

/// The scope a document makes on its own.
fn own_scope(doc: &Document) -> Scope {
    base().for_document(&vec![doc.commands_defined.clone()])
}

fn hover_at(doc: &Document, position: Position) -> Option<Hover> {
    hover(doc, position, &own_scope(doc), &language())
}

fn markup_of(doc: &Document, position: Position) -> String {
    hover_at(doc, position).expect("hover").markdown
}

/// A workspace with no installation behind it.
fn no_install(scope: &Scope) -> CompletionContext<'_> {
    CompletionContext { lilypond_version: None, scope }
}

fn offered(doc: &Document, position: Position, ctx: &CompletionContext) -> Vec<CompletionItem> {
    completions(doc, position, ctx, &language())
}

fn labels_at(doc: &Document, position: Position, ctx: &CompletionContext) -> Vec<String> {
    offered(doc, position, ctx).into_iter().map(|item| item.label).collect()
}

/// Types `typed` into `doc` at `offset`, one character at a time.
fn type_and_record(mut doc: Document, mut offset: usize, typed: &str) -> Vec<Typed> {
    let mut trace: Vec<Typed> = Vec::new();
    for ch in typed.chars() {
        let pos = doc.line_index.position_at(offset);
        let change = Change { range: Some(Range::new(pos, pos)), text: ch.to_string() };
        doc = document(&doc.changed_text(&change));
        offset += ch.len_utf8();
        let cursor = doc.line_index.position_at(offset);
        trace.push(Typed {
            active_parameter: signature_help(&doc, cursor).and_then(|h| h.active_parameter),
            completions: labels_at(&doc, cursor, &no_install(&own_scope(&doc))),
        });
    }
    trace
}

/// What is shown just before and just after the space behind `marker`.
fn gap<'a>(trace: &'a [Typed], typed: &str, marker: &str) -> (&'a Typed, &'a Typed) {
    let after_marker = typed.find(marker).expect("the marker was typed") + marker.len();
    assert_eq!(typed.as_bytes().get(after_marker), Some(&b' '));
    (&trace[after_marker - 1], &trace[after_marker])
}

/// A document with a context type and a context instance of its own, and the offset inside an
/// empty block.
fn doc_ready_for_new() -> (Document, usize) {
    let text = "\\layout { \\context { \\name MyStaff } }\n\
         { \\new Voice = \"existing\" { c } }\n\
         { }\n";
    let offset = text.rfind("{ }").unwrap() + 2;
    (document(text), offset)
}

#[test]
fn a_name_completion_says_where_the_command_came_from() {
    let (text, offset) = cursor("foo = { c }\n{ \\f| }\n");
    let (doc, scope) = named("song.ly", &text, 10);
    let items = offered(&doc, doc.line_index.position_at(offset), &no_install(&scope));
    let own = items.iter().find(|item| item.label == "\\foo").unwrap();
    assert_eq!(own.detail, "song.ly");
    let built_in = items.iter().find(|item| item.label == "\\relative").unwrap();
    assert_eq!(built_in.detail, "built-in");
}

#[test]
fn hover_names_the_file_a_command_was_defined_in() {
    let (text, offset) = cursor("foo = { c }\n\\f|oo\n");
    let (doc, _) = named("song.ly", &text, 10);
    let markup = markup_of(&doc, doc.line_index.position_at(offset));
    assert!(markup.starts_with("*song.ly*"), "{markup}");
}

/// Splits `src` at its `|` cursor mark into the text without it and the
/// offset it stood at.
fn cursor(src: &str) -> (String, usize) {
    let offset = src.find('|').expect("src must contain a `|` cursor mark");
    (format!("{}{}", &src[..offset], &src[offset + 1..]), offset)
}

#[test]
fn signature_help_shows_the_active_parameter() {
    let (doc, pos) = doc_at("\\repeat volta |");
    let help = signature_help(&doc, pos).expect("signature help");
    assert_eq!(help.label, "\\repeat kind count music");
    assert_eq!(help.active_parameter, Some(1));
}

#[test]
fn signature_help_marks_optional_parameters() {
    let (doc, pos) = doc_at("\\relative |");
    let help = signature_help(&doc, pos).expect("signature help");
    assert_eq!(help.label, "\\relative [reference] music");
}

#[test]
fn signature_help_none_outside_a_call() {
    let (doc, pos) = doc_at("c d |e");
    assert!(signature_help(&doc, pos).is_none());
}

#[test]
fn signature_help_shows_grouped_clauses_as_one_bracket() {
    let (doc, pos) = doc_at("\\tempo |");
    let help = signature_help(&doc, pos).expect("signature help");
    assert_eq!(
        help.label,
        "\\tempo [text] [duration = value]"
    );

    let (doc, pos) = doc_at("{ \\new Staff |}");
    let help = signature_help(&doc, pos).expect("signature help");
    assert_eq!(help.label, "\\new type [= name] [with] music");
}

#[test]
fn completions_offers_repeat_kinds() {
    let (doc, pos) = doc_at("\\repeat |");
    assert_eq!(
        labels_at(&doc, pos, &no_install(&own_scope(&doc))),
        vec!["volta", "unfold", "percent", "tremolo", "segno"]
    );
}

#[test]
fn completions_prefixes_a_backslash_for_word_arguments() {
    let (doc, pos) = doc_at("\\key c |");
    let labels = labels_at(&doc, pos, &no_install(&own_scope(&doc)));
    assert!(labels.iter().any(|label| label == "\\major"));
    assert!(labels.iter().any(|label| label == "\\minor"));
}

#[test]
fn a_closed_set_of_argument_values_beats_the_whole_vocabulary() {
    let (doc, pos) = doc_at("\\key c \\m|");
    let labels = labels_at(&doc, pos, &no_install(&own_scope(&doc)));
    assert!(labels.iter().any(|label| label == "\\major"));
    assert!(!labels.iter().any(|label| label == "\\relative"));
}

#[test]
fn completions_empty_for_an_open_ended_parameter() {
    let (doc, pos) = doc_at("\\repeat volta 2|");
    assert!(offered(&doc, pos, &no_install(&own_scope(&doc))).is_empty());
}

#[test]
fn completions_empty_outside_a_call() {
    let (doc, pos) = doc_at("c d |e");
    assert!(offered(&doc, pos, &no_install(&own_scope(&doc))).is_empty());
}

#[test]
fn a_half_typed_command_completes_to_every_name_in_scope() {
    let (doc, pos) = doc_at("{ \\rela| }");
    let labels = labels_at(&doc, pos, &no_install(&own_scope(&doc)));
    assert!(labels.iter().any(|label| label == "\\relative"));
    assert!(labels.iter().any(|label| label == "\\repeat"));
}

#[test]
fn a_name_completion_replaces_the_backslash_already_typed() {
    let (doc, pos) = doc_at("{ \\rela| }");
    let items = offered(&doc, pos, &no_install(&own_scope(&doc)));
    let item = items
        .iter()
        .find(|item| item.label == "\\relative")
        .unwrap();
    let range = item.replaces.expect("a range to replace");
    assert_eq!(range.start.character, 2);
    assert_eq!(range.end.character, 7);
}

#[test]
fn rewriting_a_command_name_completes_the_name_not_its_argument() {
    let (doc, pos) = doc_at("\\ver|sion \"2.24.3\"\n");
    let ctx = CompletionContext {
        lilypond_version: Some("2.24.3"),
        scope: &own_scope(&doc),
    };
    let labels = labels_at(&doc, pos, &ctx);
    assert!(labels.iter().any(|label| label == "\\version"));
    assert!(!labels.iter().any(|label| label == "\"2.24.3\""));
}

#[test]
fn the_version_argument_completes_to_the_installed_version() {
    let (doc, pos) = doc_at("\\version |");
    let ctx = CompletionContext {
        lilypond_version: Some("2.24.3"),
        scope: &own_scope(&doc),
    };
    assert_eq!(labels_at(&doc, pos, &ctx), vec!["\"2.24.3\""]);
}

#[test]
fn the_version_argument_offers_nothing_without_an_installation() {
    let (doc, pos) = doc_at("\\version |");
    assert!(offered(&doc, pos, &no_install(&own_scope(&doc))).is_empty());
}

#[test]
fn hover_on_the_keyword_shows_signature_and_documentation() {
    let (doc, pos) = doc_at("\\rela|tive c' { c }");
    let markup = markup_of(&doc, pos);
    assert!(markup.contains("\\relative [reference] music"));
    assert!(markup.contains("relative to the previous note"));
}

#[test]
fn hover_rules_the_documentation_off_from_the_synopsis() {
    let (doc, pos) = doc_at("\\rela|tive c' { c }");
    assert!(markup_of(&doc, pos).contains("\n---\n"));
}

#[test]
fn hover_over_a_variable_shows_what_it_is_bound_to() {
    let (doc, pos) = doc_at("foo = { c }\n\\f|oo\n");
    let markup = markup_of(&doc, pos);
    assert!(markup.contains("foo = { c }"), "{markup}");
}

#[test]
fn hover_over_a_variable_shows_the_value_and_nothing_else() {
    let (doc, pos) = doc_at("foo = { c }\n\\f|oo\n");
    let markup = markup_of(&doc, pos);
    assert!(!markup.contains("\\foo"), "{markup}");
}

#[test]
fn hover_over_our_own_knowledge_says_so() {
    let (doc, pos) = doc_at("\\rela|tive c' { c }");
    assert!(markup_of(&doc, pos).starts_with("*built-in*"));
}

#[test]
fn a_document_with_no_file_behind_it_still_says_what_it_is() {
    let (doc, pos) = doc_at("foo = { c }\n\\f|oo\n");
    assert!(markup_of(&doc, pos).starts_with("*untitled*"));
}

#[test]
fn hover_stays_quiet_over_a_name_with_nothing_behind_it() {
    let (doc, pos) = doc_at("{ c \\bre|ak }");
    assert!(hover_at(&doc, pos).is_none());
}

#[test]
fn hover_none_on_an_argument() {
    let (doc, pos) = doc_at("\\repeat vol|ta 2 { c }");
    assert!(hover_at(&doc, pos).is_none());
}

#[test]
fn hover_none_outside_a_call() {
    let (doc, pos) = doc_at("c d |e");
    assert!(hover_at(&doc, pos).is_none());
}

/// A document that declares a context type of its own.
fn doc_with_a_declared_context(src: &str) -> (Document, Position) {
    doc_at(&format!(
        "\\layout {{ \\context {{ \\name MyStaff \\description \"Custom staff.\" }} }}\n{src}"
    ))
}

#[test]
fn hover_over_a_context_type_shows_its_description() {
    let (doc, pos) = doc_with_a_declared_context("{ \\new My|Staff { c } }");
    assert_eq!(markup_of(&doc, pos), "*untitled*\n\nCustom staff.");
}

#[test]
fn hover_over_a_context_type_lists_the_aliases_it_also_answers_to() {
    let (doc, pos) = doc_at(
        "\\layout { \\context { \\name MyStaff \\alias Staff \\description \"Custom staff.\" } }\n{ \\new My|Staff { c } }",
    );
    assert_eq!(
        markup_of(&doc, pos),
        "*untitled*\n\n`MyStaff` context, also known as `Staff`\n\n---\n\nCustom staff."
    );
}

#[test]
fn hover_stays_quiet_over_a_context_type_with_nothing_to_say() {
    let (doc, pos) =
        doc_at("\\layout { \\context { \\name MyStaff } }\n{ \\new My|Staff { c } }");
    assert!(hover_at(&doc, pos).is_none());
}

#[test]
fn hover_over_a_context_instance_names_the_type_it_was_created_as() {
    let (doc, pos) = doc_at("{ \\new Voice = \"vocals\" { c } \\lyricsto \"voc|als\" { la } }");
    assert_eq!(
        markup_of(&doc, pos),
        "*untitled*\n\n`vocals` — a `Voice` context"
    );
}

#[test]
fn hover_over_the_new_keyword_still_describes_the_command() {
    let (doc, pos) = doc_with_a_declared_context("{ \\n|ew MyStaff { c } }");
    assert!(markup_of(&doc, pos).contains("\\new"));
}

#[test]
fn new_with_nothing_typed_offers_the_documents_own_context_types() {
    let (doc, pos) = doc_with_a_declared_context("{ \\new |}");
    let items = offered(&doc, pos, &no_install(&own_scope(&doc)));
    let my_staff = items
        .iter()
        .find(|item| item.label == "MyStaff")
        .expect("MyStaff should be offered");
    assert_eq!(my_staff.detail, "Custom staff.");
}

#[test]
fn new_with_a_type_prefix_still_offers_matching_context_types() {
    let (doc, pos) = doc_with_a_declared_context("{ \\new MyS| }");
    let items = offered(&doc, pos, &no_install(&own_scope(&doc)));
    assert!(items.iter().any(|item| item.label == "MyStaff"));
}

#[test]
fn context_declares_no_type_offers_no_completions_deep_in_a_body() {
    let (doc, pos) = doc_with_a_declared_context("{ \\new Staff { c |d } }");
    assert!(offered(&doc, pos, &no_install(&own_scope(&doc))).is_empty());
}

#[test]
fn internal_context_types_are_excluded_from_the_offer_but_still_known() {
    let (doc, pos) = doc_at("\\layout { \\context { \\name InternalFoo } }\n{ \\new |}");
    let items = offered(&doc, pos, &no_install(&own_scope(&doc)));
    assert!(
        !items.iter().any(|item| item.label == "InternalFoo"),
        "an Internal* type must not be offered: {items:?}"
    );
    assert!(
        own_scope(&doc).get_context_type("InternalFoo").is_some(),
        "an Internal* type must still be known, on pain of a false undefined-reference"
    );
}

#[test]
fn lyricsto_with_nothing_typed_offers_context_instance_names() {
    let (doc, pos) = doc_at("{ \\new Voice = \"vocals\" { c } \\lyricsto |{ la } }");
    let items = offered(&doc, pos, &no_install(&own_scope(&doc)));
    let vocals = items
        .iter()
        .find(|item| item.label == "\"vocals\"")
        .expect("vocals should be offered, quoted");
    assert_eq!(
        vocals.detail,
        "Voice",
        "the instance's documentation names the type it was created as"
    );
}

#[test]
fn news_name_position_offers_context_instance_names_too() {
    let (doc, pos) = doc_at("{ \\new Voice = \"vocals\" { c } } { \\new Staff = \"|\" }");
    let items = offered(&doc, pos, &no_install(&own_scope(&doc)));
    assert!(items.iter().any(|item| item.label == "\"vocals\""));
}

#[test]
fn change_offers_context_types_not_instance_names_at_its_first_argument() {
    let (doc, pos) = doc_with_a_declared_context("{ \\change |}");
    let items = offered(&doc, pos, &no_install(&own_scope(&doc)));
    assert!(items.iter().any(|item| item.label == "MyStaff"));
}

/// What the editor shows after one character was typed.
struct Typed {
    active_parameter: Option<u32>,
    completions: Vec<String>,
}

/// What the completions at a checkpoint look like.
enum Completions {
    Nothing,
    /// This label is among them.
    Contains(&'static str),
    /// Every command in scope is offered.
    VocabularyFallback,
}

/// Checks what a checkpoint shows.
fn assert_state(
    state: &Typed,
    active_parameter: Option<u32>,
    expect: Completions,
    label: &str,
) {
    assert_eq!(
        state.active_parameter, active_parameter,
        "{label}: active parameter"
    );
    match expect {
        Completions::Nothing => assert!(
            state.completions.is_empty(),
            "{label}: expected no completions, got {:?}",
            state.completions
        ),
        Completions::Contains(want) => assert!(
            state.completions.iter().any(|got| got == want),
            "{label}: expected {want:?} among completions, got {:?}",
            state.completions
        ),
        Completions::VocabularyFallback => assert!(
            state.completions.iter().any(|got| got == "\\relative"),
            "{label}: expected the whole-vocabulary fallback (containing \\relative), got {:?}",
            state.completions
        ),
    }
}

#[test]
fn signature_help_tracks_the_type_parameter_at_a_bare_new() {
    let typed = "\\new MyStaff";
    let (doc, offset) = doc_ready_for_new();
    let trace = type_and_record(doc, offset, typed);
    let (before, after) = gap(&trace, typed, "\\new");

    assert_state(
        before,
        Some(0),
        Completions::Contains("MyStaff"),
        "before the space after \\new",
    );
    assert_state(
        after,
        Some(0),
        Completions::Contains("MyStaff"),
        "after the space after \\new",
    );
}

#[test]
fn name_and_with() {
    let typed = "\\new MyStaff = \"piano\" \\with { \\consists some_engraver } { music }";
    let (doc, offset) = doc_ready_for_new();
    let trace = type_and_record(doc, offset, typed);

    let (before, after) = gap(&trace, typed, "\\new");
    assert_state(
        before,
        Some(0),
        Completions::Contains("MyStaff"),
        "before \\new's space: type",
    );
    assert_state(
        after,
        Some(0),
        Completions::Contains("MyStaff"),
        "after \\new's space: still type",
    );

    let (before, after) = gap(&trace, typed, "MyStaff");
    assert_state(
        before,
        Some(0),
        Completions::Contains("MyStaff"),
        "before the space after the type: still type",
    );
    assert_state(
        after,
        Some(1),
        Completions::Contains("\"existing\""),
        "after the space after the type: = name",
    );

    let (before, after) = gap(&trace, typed, "=");
    assert_state(
        before,
        Some(1),
        Completions::Contains("\"existing\""),
        "before the space after =: = name",
    );
    assert_state(
        after,
        Some(2),
        Completions::Nothing,
        "after the space after =: with, even with no name typed yet",
    );

    let (before, after) = gap(&trace, typed, "\"piano\"");
    assert_state(
        before,
        Some(1),
        Completions::Contains("\"existing\""),
        "before the space after the name: still = name",
    );
    assert_state(
        after,
        Some(2),
        Completions::Nothing,
        "after the space after the name: with",
    );

    let (before, after) = gap(&trace, typed, "\\with");
    assert_state(
        before,
        Some(2),
        Completions::VocabularyFallback,
        "before the space after \\with: with",
    );
    assert_state(
        after,
        Some(2),
        Completions::Nothing,
        "after the space after \\with: still with",
    );

    let (before, after) = gap(&trace, typed, "{");
    assert_state(
        before,
        Some(2),
        Completions::Nothing,
        "before the space after \\with's opening brace: with",
    );
    assert_state(
        after,
        Some(2),
        Completions::Nothing,
        "after the space after \\with's opening brace: still with",
    );

    let (before, after) = gap(&trace, typed, "\\consists");
    assert_state(
        before,
        Some(2),
        Completions::VocabularyFallback,
        "before the space after \\consists, inside \\with: with",
    );
    assert_state(
        after,
        Some(2),
        Completions::Nothing,
        "after the space after \\consists, inside \\with: still with",
    );

    let (before, after) = gap(&trace, typed, "some_engraver");
    assert_state(
        before,
        Some(2),
        Completions::Nothing,
        "before the space after the engraver name, inside \\with: with",
    );
    assert_state(
        after,
        Some(2),
        Completions::Nothing,
        "after the space after the engraver name, inside \\with: still with",
    );

    let (before, after) = gap(&trace, typed, "}");
    assert_state(
        before,
        Some(2),
        Completions::Nothing,
        "before the space after \\with's closing brace: with",
    );
    assert_state(
        after,
        Some(3),
        Completions::Nothing,
        "after the space after \\with's closing brace: music",
    );
}

#[test]
fn name_only() {
    let typed = "\\new MyStaff = \"piano\" { music }";
    let (doc, offset) = doc_ready_for_new();
    let trace = type_and_record(doc, offset, typed);

    let (before, after) = gap(&trace, typed, "\"piano\"");
    assert_state(
        before,
        Some(1),
        Completions::Contains("\"existing\""),
        "before the space after the name: = name",
    );
    assert_state(
        after,
        Some(2),
        Completions::Nothing,
        "after the space after the name, with never typed: with",
    );
}

#[test]
fn with_only() {
    let typed = "\\new MyStaff \\with { \\consists some_engraver } { music }";
    let (doc, offset) = doc_ready_for_new();
    let trace = type_and_record(doc, offset, typed);

    let (before, after) = gap(&trace, typed, "MyStaff");
    assert_state(
        before,
        Some(0),
        Completions::Contains("MyStaff"),
        "before the space after the type: still type",
    );
    assert_state(
        after,
        Some(1),
        Completions::Contains("\"existing\""),
        "after the space after the type: = name (still offered, even though about to be skipped)",
    );

    let (before, after) = gap(&trace, typed, "\\with");
    assert_state(
        before,
        Some(2),
        Completions::VocabularyFallback,
        "before the space after \\with, name skipped: with",
    );
    assert_state(
        after,
        Some(2),
        Completions::Nothing,
        "after the space after \\with, name skipped: still with",
    );

    let (before, after) = gap(&trace, typed, "}");
    assert_state(
        before,
        Some(2),
        Completions::Nothing,
        "before the space after \\with's closing brace, name skipped: with",
    );
    assert_state(
        after,
        Some(3),
        Completions::Nothing,
        "after the space after \\with's closing brace, name skipped: music",
    );
}

#[test]
fn neither() {
    let typed = "\\new MyStaff { music }";
    let (doc, offset) = doc_ready_for_new();
    let trace = type_and_record(doc, offset, typed);

    let (before, after) = gap(&trace, typed, "MyStaff");
    assert_state(
        before,
        Some(0),
        Completions::Contains("MyStaff"),
        "before the space after the type: still type",
    );
    assert_state(
        after,
        Some(1),
        Completions::Contains("\"existing\""),
        "after the space after the type: = name (still offered, even though about to be skipped)",
    );
}

#[test]
fn an_unrelated_bare_reserved_word_is_unaffected_by_the_context_fallback() {
    let (doc, pos) = doc_at("\\repeat |");
    let labels = labels_at(&doc, pos, &no_install(&own_scope(&doc)));
    assert_eq!(
        labels,
        vec!["volta", "unfold", "percent", "tremolo", "segno"]
    );
}

#[test]
fn signature_help_clears_its_active_parameter_right_past_a_closed_string() {
    let (doc, pos) = doc_at("\\include \"foo.ly\"|");
    let help = signature_help(&doc, pos).expect("signature help");
    assert_eq!(help.active_parameter, None);

    let (doc, pos) = doc_at("\\include \"foo.ly\" |");
    let help = signature_help(&doc, pos).expect("signature help");
    assert_eq!(help.active_parameter, None);
}
