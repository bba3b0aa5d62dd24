use ly_lsp::command::calls::Commands;
use ly_lsp::command::collect::collect_calls;
use ly_lsp::context::{ContextInstance, ContextType, read, read_instances};
use ly_lsp::document::{Document, NoteAnalysis};
use ly_lsp::grammar::{Row, tree_of};
use ly_lsp::note_names::{NoteLanguage, NoteName};
use ly_lsp::scope::Base;
use ly_lsp::syntax::SyntaxTree;
use ly_lsp::vocabulary::Scope;
use std::sync::Arc;

/// Reads LilyPond source into rows, with the shapes that the LilyPond grammar gives it.
#[allow(dead_code)]
struct Reader<'a> {
    src: &'a str,
    at: usize,
    rows: Vec<Row>,
}

#[allow(dead_code)]
impl<'a> Reader<'a> {
    fn rest(&self) -> &'a str {
        &self.src[self.at..]
    }

    fn peek(&self) -> Option<char> {
        self.rest().chars().next()
    }

    fn skip_white(&mut self) {
        while let Some(c) = self.peek() {
            if !c.is_whitespace() {
                break;
            }
            self.at += c.len_utf8();
        }
    }

    fn push(&mut self, kind: &str, named: bool, depth: u32) -> usize {
        self.rows.push(Row {
            kind: kind.to_string(),
            start: self.at,
            end: self.at,
            named,
            missing: false,
            error: kind == "ERROR",
            has_error: false,
            depth,
        });
        self.rows.len() - 1
    }

    fn close(&mut self, row: usize) {
        self.rows[row].end = self.at;
    }

    fn token(&mut self, kind: &str, named: bool, depth: u32, len: usize) {
        let row = self.push(kind, named, depth);
        self.at += len;
        self.close(row);
    }

    /// The length of the word at the start of `text`.
    fn word_len(text: &str) -> usize {
        let bytes = text.as_bytes();
        let mut n: usize = 0;
        loop {
            while n < bytes.len() && bytes[n].is_ascii_alphabetic() {
                n += 1;
            }
            let joined = n > 0
                && n + 1 < bytes.len()
                && (bytes[n] == b'-' || bytes[n] == b'_')
                && bytes[n + 1].is_ascii_alphabetic();
            if !joined {
                return n;
            }
            n += 1;
        }
    }

    fn string(&mut self, depth: u32, prefix: &str) {
        let rest = self.rest();
        let bytes = rest.as_bytes();
        let mut n: usize = 1;
        while n < bytes.len() && bytes[n] != b'"' {
            n += if bytes[n] == b'\\' { 2 } else { 1 };
        }
        if n >= bytes.len() {
            self.token("\"", false, depth, 1);
            return;
        }
        let end = self.at + n;
        let string = self.push(&format!("{prefix}string"), true, depth);
        self.token("\"", false, depth + 1, 1);
        while self.at < end {
            if self.peek() == Some('\\') {
                self.token(&format!("{prefix}escape_sequence"), true, depth + 1, 2);
            } else {
                let len = self.src[self.at..end].find('\\').unwrap_or(end - self.at);
                self.token(&format!("{prefix}string_fragment"), true, depth + 1, len);
            }
        }
        self.token("\"", false, depth + 1, 1);
        self.close(string);
    }

    fn scheme(&mut self, depth: u32) {
        self.skip_white();
        let rest = self.rest();
        if rest.starts_with('(') {
            let list = self.push("scheme_list", true, depth);
            self.token("(", false, depth + 1, 1);
            loop {
                self.skip_white();
                match self.peek() {
                    None => {
                        self.rows[list].kind = "ERROR".to_string();
                        self.rows[list].error = true;
                        break;
                    }
                    Some(')') => {
                        self.token(")", false, depth + 1, 1);
                        break;
                    }
                    Some(_) => self.scheme(depth + 1),
                }
            }
            self.close(list);
        } else if rest.starts_with('"') {
            self.string(depth, "scheme_");
        } else if rest.starts_with("#{") {
            let len = rest.find("#}").map_or(rest.len(), |n| n + 2);
            self.token("scheme_embedded_lilypond", true, depth, len);
        } else if rest.starts_with(';') {
            let len = rest.find('\n').unwrap_or(rest.len());
            self.token("comment", true, depth, len);
        } else if rest.starts_with('\'') {
            let quote = self.push("scheme_quote", true, depth);
            self.token("'", false, depth + 1, 1);
            self.scheme(depth + 1);
            self.close(quote);
        } else {
            let len = rest
                .find(|c: char| c.is_whitespace() || c == '(' || c == ')' || c == '"')
                .unwrap_or(rest.len())
                .max(1);
            let digits = rest[..len].chars().all(|c| c.is_ascii_digit() || c == '-');
            let kind = if digits { "scheme_number" } else { "scheme_symbol" };
            self.token(kind, true, depth, len);
        }
    }

    /// Everything from `open` to `close`, as one node.
    fn block(&mut self, kind: &str, depth: u32, open: &str, close: &str) {
        let block = self.push(kind, true, depth);
        self.token(open, false, depth + 1, open.len());
        self.row(depth + 1, Some(close));
        if self.rest().starts_with(close) {
            self.token(close, false, depth + 1, close.len());
        } else {
            self.rows[block].kind = "ERROR".to_string();
            self.rows[block].error = true;
        }
        self.close(block);
    }

    fn path(&mut self, depth: u32, end: usize) {
        let text = &self.src[self.at..end];
        if !text.contains('.') {
            self.token("symbol", true, depth, text.len());
            return;
        }
        let path = self.push("property_expression", true, depth);
        while self.at < end {
            let rest = &self.src[self.at..end];
            if rest.starts_with('.') {
                self.token("punctuation", true, depth + 1, 1);
            } else {
                let len = rest.find('.').unwrap_or(rest.len());
                self.token("symbol", true, depth + 1, len);
            }
        }
        self.close(path);
    }

    fn word(&mut self, depth: u32) {
        let rest = self.rest();
        let mut end: usize = Self::word_len(rest);
        while rest[end..].starts_with('.') && Self::word_len(&rest[end + 1..]) > 0 {
            end = end + 1 + Self::word_len(&rest[end + 1..]);
        }
        let behind = rest[end..].trim_start();
        let assigned = behind.starts_with('=')
            && !behind.starts_with("='")
            && !behind.starts_with("=,");
        let end = self.at + end;
        if assigned {
            let lhs = self.push("assignment_lhs", true, depth);
            self.path(depth + 1, end);
            self.close(lhs);
        } else {
            self.path(depth, end);
        }
    }

    fn command(&mut self, depth: u32) {
        let rest = self.rest();
        let len = 1 + Self::word_len(&rest[1..]);
        if len == 1 {
            let len = rest.chars().take(2).map(char::len_utf8).sum();
            self.token("escaped_word", true, depth, len);
            return;
        }
        let word = &rest[..len];
        let behind = rest[len..].trim_start();
        let typed = behind.starts_with(|c: char| c.is_ascii_alphabetic());
        if (word == "\\new" || word == "\\context") && typed {
            let context = self.push("named_context", true, depth);
            self.token("escaped_word", true, depth + 1, len);
            self.skip_white();
            let len = Self::word_len(self.rest());
            self.token("symbol", true, depth + 1, len);
            self.close(context);
            if self.rest().trim_start().starts_with('=') {
                self.skip_white();
                self.token("punctuation", true, depth + 1, 1);
                self.close(context);
                let behind = self.rest().trim_start();
                if behind.starts_with('"') {
                    self.skip_white();
                    self.string(depth + 1, "");
                    self.close(context);
                } else if Self::word_len(behind) > 0 {
                    self.skip_white();
                    let len = Self::word_len(self.rest());
                    self.token("symbol", true, depth + 1, len);
                    self.close(context);
                }
            }
        } else if word == "\\new" {
            let error = self.push("ERROR", true, depth);
            self.token("escaped_word", true, depth + 1, len);
            self.close(error);
        } else {
            self.token("escaped_word", true, depth, len);
        }
    }

    fn item(&mut self, depth: u32) {
        let rest = self.rest();
        let c = self.peek().unwrap();
        if rest.starts_with("%{") {
            let len = rest.find("%}").map_or(rest.len(), |n| n + 2);
            self.token("comment", true, depth, len);
        } else if c == '%' {
            let len = rest.find('\n').unwrap_or(rest.len());
            self.token("comment", true, depth, len);
        } else if c == '"' {
            self.string(depth, "");
        } else if c == '\\' {
            self.command(depth);
        } else if c == '{' {
            self.block("expression_block", depth, "{", "}");
        } else if rest.starts_with("<<") {
            self.block("parallel_music", depth, "<<", ">>");
        } else if c == '<' {
            self.block("chord", depth, "<", ">");
        } else if c == '}' {
            let error = self.push("ERROR", true, depth);
            self.token("}", false, depth + 1, 1);
            self.close(error);
        } else if c == '#' || c == '$' {
            let scheme = self.push("embedded_scheme", true, depth);
            self.token("embedded_scheme_prefix", true, depth + 1, 1);
            let text = self.push("embedded_scheme_text", true, depth + 1);
            self.scheme(depth + 2);
            self.close(text);
            self.close(scheme);
        } else if c.is_ascii_digit() {
            let len = rest.find(|c: char| !c.is_ascii_digit()).unwrap_or(rest.len());
            let behind = &rest[len..];
            if behind.starts_with('/') && behind[1..].starts_with(|c: char| c.is_ascii_digit()) {
                let more = behind[1..]
                    .find(|c: char| !c.is_ascii_digit())
                    .unwrap_or(behind.len() - 1);
                self.token("fraction", true, depth, len + 1 + more);
            } else {
                self.token("unsigned_integer", true, depth, len);
            }
        } else if c.is_ascii_alphabetic() {
            self.word(depth);
        } else {
            self.token("punctuation", true, depth, c.len_utf8());
        }
    }

    /// Everything up to `close`, or to the end.
    fn row(&mut self, depth: u32, close: Option<&str>) {
        loop {
            self.skip_white();
            if self.rest().is_empty() {
                return;
            }
            if close.is_some_and(|close| self.rest().starts_with(close)) {
                return;
            }
            self.item(depth);
        }
    }
}

/// The syntax tree of `src`.
#[allow(dead_code)]
fn tree(src: &str) -> SyntaxTree {
    let mut reader = Reader { src, at: 0, rows: Vec::new() };
    let root = reader.push("lilypond_program", true, 0);
    reader.row(1, None);
    reader.at = src.len();
    reader.close(root);
    let mut rows = reader.rows;
    for i in 0..rows.len() {
        let mut stop: usize = i + 1;
        while stop < rows.len() && rows[stop].depth > rows[i].depth {
            stop += 1;
        }
        let wrong = rows[i..stop].iter().any(|row| row.error || row.missing);
        rows[i].has_error = wrong;
    }
    tree_of(rows).expect("one tree")
}

/// The Dutch note names.
#[allow(dead_code)]
fn dutch() -> NoteLanguage {
    let mut notes: Vec<NoteName> = Vec::new();
    for (note_name, letter) in ["c", "d", "e", "f", "g", "a", "b"].iter().enumerate() {
        for (suffix, alteration) in [("", 0i8), ("is", 1), ("es", -1)] {
            notes.push(NoteName {
                text: format!("{letter}{suffix}"),
                note_name: note_name as u8,
                alteration,
            });
        }
    }
    NoteLanguage { name: "nederlands".to_string(), notes }
}

/// This library's own layers.
#[allow(dead_code)]
fn base() -> Base {
    Base::builtins(vec![Arc::new(dutch())])
}

/// The scope of a file that defines nothing.
#[allow(dead_code)]
fn builtins_only() -> Scope {
    base().for_document(&Vec::new())
}

/// Every call of `src`, in source order.
#[allow(dead_code)]
fn calls_of(tree: &SyntaxTree, src: &str, scope: &Scope) -> Commands {
    collect_calls(tree, src, &dutch(), scope)
}

/// The document of a file called `origin`, and the scope it makes on its own.
#[allow(dead_code)]
fn named(origin: &str, src: &str, id: u64) -> (Document, Scope) {
    let mut document =
        Document::from_parts(src.to_string(), tree(src), Arc::new(origin.to_string()), id);
    let scope = base().for_document(&vec![document.commands_defined.clone()]);
    let commands = calls_of(&document.tree, src, &scope);
    let notes = NoteAnalysis { events: Vec::new(), commands, problems: Vec::new() };
    document.refresh(&scope, notes);
    (document, scope)
}

#[allow(dead_code)]
fn document(src: &str) -> Document {
    named("untitled", src, 10).0
}

fn contexts(src: &str) -> Vec<ContextType> {
    read(&tree(src), src)
}

fn instances(src: &str) -> Vec<ContextInstance> {
    read_instances(&tree(src), src)
}

#[test]
fn reads_a_bare_name() {
    let src = "\\context { \\name Staff }";
    let types = contexts(src);
    assert_eq!(types.len(), 1);
    assert_eq!(types[0].name, "Staff");
    let span = types[0].name_span;
    assert_eq!(&src[span.start..span.end], "Staff");
}

#[test]
fn reads_a_quoted_name() {
    let src = "\\context { \\name \"MyStaff\" }";
    let types = contexts(src);
    assert_eq!(types[0].name, "MyStaff");
    let span = types[0].name_span;
    assert_eq!(&src[span.start..span.end], "MyStaff");
}

#[test]
fn reads_several_aliases() {
    let src = "\\context { \\name Dynamics \\alias Voice \\alias Staff }";
    assert_eq!(
        contexts(src)[0].aliases,
        vec!["Voice".to_string(), "Staff".to_string()]
    );
}

#[test]
fn reads_a_description_through_texinfo_conversion() {
    let src = "\\context { \\name Staff \\description \"Handles @code{clef}s.\" }";
    assert_eq!(
        contexts(src)[0].description,
        Some("Handles `clef`s.".to_string())
    );
}

#[test]
fn a_context_with_no_name_declares_no_type() {
    let src = "\\context { \\Staff \\override NoteHead.color = #red }";
    assert!(contexts(src).is_empty());
}

#[test]
fn a_new_context_invocation_declares_no_type() {
    for src in [
        "\\new Staff = \"x\" { c4 }",
        "\\context Staff = \"x\" { c4 }",
    ] {
        assert!(contexts(src).is_empty(), "wrongly read a type from {src}");
    }
}

#[test]
fn a_block_that_inherits_before_naming_is_still_a_declaration() {
    let src = "\\context { \\Staff \\name MyStaff \\alias Staff }";
    let types = contexts(src);
    assert_eq!(types.len(), 1, "an inheriting block still declares a type");
    assert_eq!(types[0].name, "MyStaff");
    assert_eq!(types[0].aliases, vec!["Staff".to_string()]);
}

#[test]
fn several_blocks_are_read_in_source_order() {
    let src = "\\layout { \\context { \\name Staff } \\context { \\name Voice } }";
    let names: Vec<String> = contexts(src).into_iter().map(|c| c.name).collect();
    assert_eq!(names, vec!["Staff".to_string(), "Voice".to_string()]);
}

#[test]
fn a_block_nested_two_levels_deep_is_found() {
    let src = "\\score { { c4 } \\layout { \\context { \\name Staff } } }";
    assert_eq!(contexts(src)[0].name, "Staff");
}

#[test]
fn only_a_name_inside_the_matching_block_counts() {
    let src = "\\layout { \\context { \\Staff } \\context { \\name Voice } }";
    let types = contexts(src);
    assert_eq!(types.len(), 1);
    assert_eq!(types[0].name, "Voice");
}

#[test]
fn block_span_covers_the_keyword_through_the_closing_brace() {
    let src = "x = { c } \\context { \\name Staff }";
    let span = contexts(src)[0].block_span;
    assert_eq!(&src[span.start..span.end], "\\context { \\name Staff }");
}

#[test]
fn a_description_with_an_escaped_quote_and_a_backslashed_command_survives() {
    let src =
        "\\context { \\name Staff \\description \"A @code{\\\\clef} and a \\\"quote\\\".\" }";
    assert_eq!(
        contexts(src)[0].description,
        Some("A `\\clef` and a \"quote\".".to_string())
    );
}

#[test]
fn new_reads_a_quoted_instance_name() {
    let src = "{ \\new Voice = \"vocals\" { c } }";
    let found = instances(src);
    assert_eq!(found.len(), 1);
    assert_eq!(found[0].name, "vocals");
    assert_eq!(found[0].created_as, Some("Voice".to_string()));
    let span = found[0].span;
    assert_eq!(&src[span.start..span.end], "vocals");
}

#[test]
fn context_reads_a_quoted_instance_name() {
    let src = "{ \\context Voice = \"vocals\" { c } }";
    let found = instances(src);
    assert_eq!(found[0].name, "vocals");
    assert_eq!(found[0].created_as, Some("Voice".to_string()));
}

#[test]
fn a_bare_symbol_name_is_read_the_same_as_a_quoted_one() {
    let src = "{ \\new Voice = vocals { c } }";
    let found = instances(src);
    assert_eq!(found[0].name, "vocals");
    let span = found[0].span;
    assert_eq!(&src[span.start..span.end], "vocals");
}

#[test]
fn an_unnamed_new_declares_no_instance() {
    let src = "{ \\new Voice { c } }";
    assert!(instances(src).is_empty());
}

#[test]
fn change_refers_to_an_instance_rather_than_creating_one() {
    let src = "{ \\change Staff = \"lower\" }";
    assert!(instances(src).is_empty());
}

#[test]
fn lyricsto_names_no_instance_either() {
    let src = "{ \\lyricsto \"vocals\" { la la } }";
    assert!(instances(src).is_empty());
}

#[test]
fn several_instances_are_read_in_source_order() {
    let src = "{ \\new Staff = \"upper\" { c } \\new Staff = \"lower\" { c } }";
    let names: Vec<String> = instances(src).into_iter().map(|c| c.name).collect();
    assert_eq!(names, vec!["upper".to_string(), "lower".to_string()]);
}

#[test]
fn a_with_block_between_the_name_and_the_body_doesnt_confuse_the_reader() {
    let src = "{ \\new Voice = \"vocals\" \\with { fontSize = #-2 } { c } }";
    let found = instances(src);
    assert_eq!(found.len(), 1);
    assert_eq!(found[0].name, "vocals");
}
