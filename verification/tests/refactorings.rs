use ly_lsp::code_action::extract_to_variable::{
    Mode, Wrapping, braced, format_music_text, validate,
};
use ly_lsp::code_action::inline_repeats::{Ending, block_node, ending_for, inner};
use ly_lsp::code_action::inline_variable::find_definition;
use ly_lsp::code_action::note_state::{octave_respelling, relative_marks, relative_octave};
use ly_lsp::code_action::splice::{Splice, apply_splices};
use ly_lsp::code_action::{Action, offer_all, resolve};
use ly_lsp::command::calls::Commands;
use ly_lsp::command::collect::collect_calls;
use ly_lsp::document::{Document, NoteAnalysis};
use ly_lsp::grammar::{Row, tree_of};
use ly_lsp::line_struct::Span;
use ly_lsp::note_names::{NoteLanguage, NoteName};
use ly_lsp::notes::{Duration, Event, EventKind, Pitch, RelativeReference};
use ly_lsp::protocol::{Position, Range};
use ly_lsp::scope::Base;
use ly_lsp::syntax::SyntaxTree;
use ly_lsp::vocabulary::Scope;
use std::sync::Arc;

/// Reads LilyPond source into rows, with the shapes that the LilyPond grammar gives it.
#[allow(dead_code)]
struct Reader<'a> {
    src: &'a str,
    at: usize,
    rows: Vec<Row>,
}

#[allow(dead_code)]
impl<'a> Reader<'a> {
    fn rest(&self) -> &'a str {
        &self.src[self.at..]
    }

    fn peek(&self) -> Option<char> {
        self.rest().chars().next()
    }

    fn skip_white(&mut self) {
        while let Some(c) = self.peek() {
            if !c.is_whitespace() {
                break;
            }
            self.at += c.len_utf8();
        }
    }

    fn push(&mut self, kind: &str, named: bool, depth: u32) -> usize {
        self.rows.push(Row {
            kind: kind.to_string(),
            start: self.at,
            end: self.at,
            named,
            missing: false,
            error: kind == "ERROR",
            has_error: false,
            depth,
        });
        self.rows.len() - 1
    }

    fn close(&mut self, row: usize) {
        self.rows[row].end = self.at;
    }

    fn token(&mut self, kind: &str, named: bool, depth: u32, len: usize) {
        let row = self.push(kind, named, depth);
        self.at += len;
        self.close(row);
    }

    /// The length of the word at the start of `text`.
    fn word_len(text: &str) -> usize {
        let bytes = text.as_bytes();
        let mut n: usize = 0;
        loop {
            while n < bytes.len() && bytes[n].is_ascii_alphabetic() {
                n += 1;
            }
            let joined = n > 0
                && n + 1 < bytes.len()
                && (bytes[n] == b'-' || bytes[n] == b'_')
                && bytes[n + 1].is_ascii_alphabetic();
            if !joined {
                return n;
            }
            n += 1;
        }
    }

    fn string(&mut self, depth: u32, prefix: &str) {
        let rest = self.rest();
        let bytes = rest.as_bytes();
        let mut n: usize = 1;
        while n < bytes.len() && bytes[n] != b'"' {
            n += if bytes[n] == b'\\' { 2 } else { 1 };
        }
        if n >= bytes.len() {
            self.token("\"", false, depth, 1);
            return;
        }
        let end = self.at + n;
        let string = self.push(&format!("{prefix}string"), true, depth);
        self.token("\"", false, depth + 1, 1);
        while self.at < end {
            if self.peek() == Some('\\') {
                self.token(&format!("{prefix}escape_sequence"), true, depth + 1, 2);
            } else {
                let len = self.src[self.at..end].find('\\').unwrap_or(end - self.at);
                self.token(&format!("{prefix}string_fragment"), true, depth + 1, len);
            }
        }
        self.token("\"", false, depth + 1, 1);
        self.close(string);
    }

    fn scheme(&mut self, depth: u32) {
        self.skip_white();
        let rest = self.rest();
        if rest.starts_with('(') {
            let list = self.push("scheme_list", true, depth);
            self.token("(", false, depth + 1, 1);
            loop {
                self.skip_white();
                match self.peek() {
                    None => {
                        self.rows[list].kind = "ERROR".to_string();
                        self.rows[list].error = true;
                        break;
                    }
                    Some(')') => {
                        self.token(")", false, depth + 1, 1);
                        break;
                    }
                    Some(_) => self.scheme(depth + 1),
                }
            }
            self.close(list);
        } else if rest.starts_with('"') {
            self.string(depth, "scheme_");
        } else if rest.starts_with("#{") {
            let len = rest.find("#}").map_or(rest.len(), |n| n + 2);
            self.token("scheme_embedded_lilypond", true, depth, len);
        } else if rest.starts_with(';') {
            let len = rest.find('\n').unwrap_or(rest.len());
            self.token("comment", true, depth, len);
        } else if rest.starts_with('\'') {
            let quote = self.push("scheme_quote", true, depth);
            self.token("'", false, depth + 1, 1);
            self.scheme(depth + 1);
            self.close(quote);
        } else {
            let len = rest
                .find(|c: char| c.is_whitespace() || c == '(' || c == ')' || c == '"')
                .unwrap_or(rest.len())
                .max(1);
            let digits = rest[..len].chars().all(|c| c.is_ascii_digit() || c == '-');
            let kind = if digits { "scheme_number" } else { "scheme_symbol" };
            self.token(kind, true, depth, len);
        }
    }

    /// Everything from `open` to `close`, as one node.
    fn block(&mut self, kind: &str, depth: u32, open: &str, close: &str) {
        let block = self.push(kind, true, depth);
        self.token(open, false, depth + 1, open.len());
        self.row(depth + 1, Some(close));
        if self.rest().starts_with(close) {
            self.token(close, false, depth + 1, close.len());
        } else {
            self.rows[block].kind = "ERROR".to_string();
            self.rows[block].error = true;
        }
        self.close(block);
    }

    fn path(&mut self, depth: u32, end: usize) {
        let text = &self.src[self.at..end];
        if !text.contains('.') {
            self.token("symbol", true, depth, text.len());
            return;
        }
        let path = self.push("property_expression", true, depth);
        while self.at < end {
            let rest = &self.src[self.at..end];
            if rest.starts_with('.') {
                self.token("punctuation", true, depth + 1, 1);
            } else {
                let len = rest.find('.').unwrap_or(rest.len());
                self.token("symbol", true, depth + 1, len);
            }
        }
        self.close(path);
    }

    fn word(&mut self, depth: u32) {
        let rest = self.rest();
        let mut end: usize = Self::word_len(rest);
        while rest[end..].starts_with('.') && Self::word_len(&rest[end + 1..]) > 0 {
            end = end + 1 + Self::word_len(&rest[end + 1..]);
        }
        let behind = rest[end..].trim_start();
        let assigned = behind.starts_with('=')
            && !behind.starts_with("='")
            && !behind.starts_with("=,");
        let end = self.at + end;
        if assigned {
            let lhs = self.push("assignment_lhs", true, depth);
            self.path(depth + 1, end);
            self.close(lhs);
        } else {
            self.path(depth, end);
        }
    }

    fn command(&mut self, depth: u32) {
        let rest = self.rest();
        let len = 1 + Self::word_len(&rest[1..]);
        if len == 1 {
            let len = rest.chars().take(2).map(char::len_utf8).sum();
            self.token("escaped_word", true, depth, len);
            return;
        }
        let word = &rest[..len];
        let behind = rest[len..].trim_start();
        let typed = behind.starts_with(|c: char| c.is_ascii_alphabetic());
        if (word == "\\new" || word == "\\context") && typed {
            let context = self.push("named_context", true, depth);
            self.token("escaped_word", true, depth + 1, len);
            self.skip_white();
            let len = Self::word_len(self.rest());
            self.token("symbol", true, depth + 1, len);
            self.close(context);
            if self.rest().trim_start().starts_with('=') {
                self.skip_white();
                self.token("punctuation", true, depth + 1, 1);
                self.close(context);
                let behind = self.rest().trim_start();
                if behind.starts_with('"') {
                    self.skip_white();
                    self.string(depth + 1, "");
                    self.close(context);
                } else if Self::word_len(behind) > 0 {
                    self.skip_white();
                    let len = Self::word_len(self.rest());
                    self.token("symbol", true, depth + 1, len);
                    self.close(context);
                }
            }
        } else if word == "\\new" {
            let error = self.push("ERROR", true, depth);
            self.token("escaped_word", true, depth + 1, len);
            self.close(error);
        } else {
            self.token("escaped_word", true, depth, len);
        }
    }

    fn item(&mut self, depth: u32) {
        let rest = self.rest();
        let c = self.peek().unwrap();
        if rest.starts_with("%{") {
            let len = rest.find("%}").map_or(rest.len(), |n| n + 2);
            self.token("comment", true, depth, len);
        } else if c == '%' {
            let len = rest.find('\n').unwrap_or(rest.len());
            self.token("comment", true, depth, len);
        } else if c == '"' {
            self.string(depth, "");
        } else if c == '\\' {
            self.command(depth);
        } else if c == '{' {
            self.block("expression_block", depth, "{", "}");
        } else if rest.starts_with("<<") {
            self.block("parallel_music", depth, "<<", ">>");
        } else if c == '<' {
            self.block("chord", depth, "<", ">");
        } else if c == '}' {
            let error = self.push("ERROR", true, depth);
            self.token("}", false, depth + 1, 1);
            self.close(error);
        } else if c == '#' || c == '$' {
            let scheme = self.push("embedded_scheme", true, depth);
            self.token("embedded_scheme_prefix", true, depth + 1, 1);
            let text = self.push("embedded_scheme_text", true, depth + 1);
            self.scheme(depth + 2);
            self.close(text);
            self.close(scheme);
        } else if c.is_ascii_digit() {
            let len = rest.find(|c: char| !c.is_ascii_digit()).unwrap_or(rest.len());
            let behind = &rest[len..];
            if behind.starts_with('/') && behind[1..].starts_with(|c: char| c.is_ascii_digit()) {
                let more = behind[1..]
                    .find(|c: char| !c.is_ascii_digit())
                    .unwrap_or(behind.len() - 1);
                self.token("fraction", true, depth, len + 1 + more);
            } else {
                self.token("unsigned_integer", true, depth, len);
            }
        } else if c.is_ascii_alphabetic() {
            self.word(depth);
        } else {
            self.token("punctuation", true, depth, c.len_utf8());
        }
    }

    /// Everything up to `close`, or to the end.
    fn row(&mut self, depth: u32, close: Option<&str>) {
        loop {
            self.skip_white();
            if self.rest().is_empty() {
                return;
            }
            if close.is_some_and(|close| self.rest().starts_with(close)) {
                return;
            }
            self.item(depth);
        }
    }
}

/// The syntax tree of `src`.
#[allow(dead_code)]
fn tree(src: &str) -> SyntaxTree {
    let mut reader = Reader { src, at: 0, rows: Vec::new() };
    let root = reader.push("lilypond_program", true, 0);
    reader.row(1, None);
    reader.at = src.len();
    reader.close(root);
    let mut rows = reader.rows;
    for i in 0..rows.len() {
        let mut stop: usize = i + 1;
        while stop < rows.len() && rows[stop].depth > rows[i].depth {
            stop += 1;
        }
        let wrong = rows[i..stop].iter().any(|row| row.error || row.missing);
        rows[i].has_error = wrong;
    }
    tree_of(rows).expect("one tree")
}

/// The Dutch note names.
#[allow(dead_code)]
fn dutch() -> NoteLanguage {
    let mut notes: Vec<NoteName> = Vec::new();
    for (note_name, letter) in ["c", "d", "e", "f", "g", "a", "b"].iter().enumerate() {
        for (suffix, alteration) in [("", 0i8), ("is", 1), ("es", -1)] {
            notes.push(NoteName {
                text: format!("{letter}{suffix}"),
                note_name: note_name as u8,
                alteration,
            });
        }
    }
    NoteLanguage { name: "nederlands".to_string(), notes }
}

/// This library's own layers.
#[allow(dead_code)]
fn base() -> Base {
    Base::builtins(vec![Arc::new(dutch())])
}

/// The scope of a file that defines nothing.
#[allow(dead_code)]
fn builtins_only() -> Scope {
    base().for_document(&Vec::new())
}

/// Every call of `src`, in source order.
#[allow(dead_code)]
fn calls_of(tree: &SyntaxTree, src: &str, scope: &Scope) -> Commands {
    collect_calls(tree, src, &dutch(), scope)
}

/// The document of a file called `origin`, and the scope it makes on its own.
#[allow(dead_code)]
fn named(origin: &str, src: &str, id: u64) -> (Document, Scope) {
    let mut document =
        Document::from_parts(src.to_string(), tree(src), Arc::new(origin.to_string()), id);
    let scope = base().for_document(&vec![document.commands_defined.clone()]);
    let commands = calls_of(&document.tree, src, &scope);
    let notes = NoteAnalysis { events: Vec::new(), commands, problems: Vec::new() };
    document.refresh(&scope, notes);
    (document, scope)
}

#[allow(dead_code)]
fn document(src: &str) -> Document {
    named("untitled", src, 10).0
}

/// One event of a test document: the text of its value, its pitch (none for a rest), its duration,
/// and whether that is written.
type Sounded<'a> = (&'a str, Option<(u8, i32)>, &'a str, bool);

fn pitch(note_name: u8, octave: i32) -> Pitch {
    Pitch { note_name, octave, alteration: 0 }
}

/// An absolute pitch as it is written.
fn spelled(pitch: Pitch) -> String {
    let letter = ["c", "d", "e", "f", "g", "a", "b"][pitch.note_name as usize];
    format!("{letter}{}", "'".repeat((pitch.octave + 1) as usize))
}

/// The events of `src`, found one behind the other from the offset `from`.
/// With a reference pitch, each note's octave goes by the note before it.
fn events(src: &str, from: usize, sounded: &[Sounded], relative: Option<Pitch>) -> Vec<Event> {
    let mut at: usize = from;
    let mut reference = relative;
    let mut out: Vec<Event> = Vec::new();
    for (text, sounds, duration, duration_written) in sounded {
        let start = at + src[at..].find(text).expect("the event is in the source");
        let end = start + text.len();
        at = end;
        let pitch_written = text.starts_with(|c: char| c.is_ascii_alphabetic());
        out.push(Event {
            span: Span::new(start, end),
            value_end: end,
            kind: match sounds {
                Some((note_name, octave)) => EventKind::Note {
                    pitch: pitch(*note_name, *octave),
                    pitch_written,
                },
                None => EventKind::Rest,
            },
            duration: Duration { spelling: duration.to_string() },
            duration_written: *duration_written,
            relative: reference.map(|pitch| RelativeReference { text: spelled(pitch), pitch }),
        });
        if let (Some(_), Some((note_name, octave))) = (reference, sounds) {
            reference = Some(pitch(*note_name, *octave));
        }
    }
    out
}

fn sounding(src: &str, events: Vec<Event>) -> Document {
    let mut document = Document::from_parts(
        src.to_string(),
        tree(src),
        Arc::new("song.ly".to_string()),
        10,
    );
    let scope = base().for_document(&vec![document.commands_defined.clone()]);
    let commands = calls_of(&document.tree, src, &scope);
    document.refresh(&scope, NoteAnalysis { events, commands, problems: Vec::new() });
    document
}

/// The range of the first `text` behind `from`.
fn range_of(document: &Document, from: usize, text: &str) -> Range {
    let start = from + document.text[from..].find(text).expect("in the source");
    document.line_index.range_of(Span::new(start, start + text.len()))
}

/// The text once an action has been performed on a selection.
fn performed(document: &Document, id: &str, selection: Range) -> Option<String> {
    let resolved = resolve(document, id, selection)?;
    let mut spans: Vec<(usize, usize, String)> = resolved
        .edits
        .iter()
        .map(|edit| {
            (
                document.line_index.offset_at(edit.range.start).unwrap(),
                document.line_index.offset_at(edit.range.end).unwrap(),
                edit.new_text.clone(),
            )
        })
        .collect();
    spans.sort_by_key(|(start, end, _)| (*start, *end));
    let mut text = document.text.clone();
    for (start, end, with) in spans.into_iter().rev() {
        text.replace_range(start..end, &with);
    }
    Some(text)
}

fn four_notes(src: &str) -> Document {
    let notes: [Sounded; 4] = [
        ("c4", Some((0, -1)), "4", true),
        ("d", Some((1, -1)), "4", false),
        ("e", Some((2, -1)), "4", false),
        ("f", Some((3, -1)), "4", false),
    ];
    sounding(src, events(src, 0, &notes, None))
}

#[test]
fn a_run_of_notes_is_extracted_with_its_duration() {
    let document = four_notes("{ c4 d e f }\n");
    let selection = range_of(&document, 0, "d e");
    assert_eq!(
        performed(&document, "extract_to_variable", selection).as_deref(),
        Some("music = { d4 e }\n\n{ c4 \\music f }\n")
    );
    let resolved = resolve(&document, "extract_to_variable", selection).unwrap();
    let command = resolved.command.expect("a follow-up");
    assert_eq!(command.title, "Rename");
    assert_eq!(command.command, "editor.action.rename");
}

#[test]
fn a_selection_that_cuts_an_event_is_not_extracted() {
    let document = four_notes("{ c4 d e f }\n");
    let whole = range_of(&document, 0, "c4");
    let half = Range::new(whole.start, Position::new(0, 3));
    assert!(Action::ExtractToVariable.offer(&document, half).is_none());
    assert!(Action::ExtractToVariable.resolve(&document, half).is_none());
    assert_eq!(
        Action::ExtractToVariable.offer(&document, whole).expect("an offer").title,
        "Extract to variable"
    );
}

#[test]
fn extraction_inside_relative_keeps_the_octave_of_the_note_behind() {
    let src = "\\relative c' { c4 d e g }\n";
    let notes: [Sounded; 4] = [
        ("c4", Some((0, 0)), "4", true),
        ("d", Some((1, 0)), "4", false),
        ("e", Some((2, 0)), "4", false),
        ("g", Some((4, 0)), "4", false),
    ];
    let document = sounding(src, events(src, 14, &notes, Some(pitch(0, 0))));
    assert_eq!(
        performed(&document, "extract_to_variable", range_of(&document, 14, "d e")).as_deref(),
        Some("music = \\relative c' { d4 e }\n\n\\relative c' { c4 \\music g' }\n")
    );
}

#[test]
fn lyrics_are_extracted_in_their_mode() {
    let src = "\\lyricmode { la lo }\n";
    let document = sounding(src, Vec::new());
    assert_eq!(
        performed(&document, "extract_to_variable", range_of(&document, 0, "la lo")).as_deref(),
        Some("music = \\lyricmode { la lo }\n\n\\lyricmode { \\music }\n")
    );
}

#[test]
fn braces_keep_the_indentation_of_several_lines() {
    assert_eq!(braced("c d"), "{ c d }");
    assert_eq!(braced("c d\n  e f"), "{\n  c d\n  e f\n}");
    assert_eq!(format_music_text("c d", Wrapping::Verbatim), "c d");
    assert_eq!(format_music_text("la", Wrapping::Mode(Mode::Lyrics)), "\\lyricmode { la }");
}

fn one_reference() -> Document {
    let src = "music = { d4 e }\n\n{ c4 \\music f }\n";
    let notes: [Sounded; 4] = [
        ("d4", Some((1, -1)), "4", true),
        ("e", Some((2, -1)), "4", false),
        ("c4", Some((0, -1)), "4", true),
        ("f", Some((3, -1)), "4", false),
    ];
    let mut found = events(src, 8, &notes[..2], None);
    found.extend(events(src, 18, &notes[2..], None));
    sounding(src, found)
}

#[test]
fn inlining_a_reference_keeps_the_definition() {
    let document = one_reference();
    let at = range_of(&document, 18, "\\music");
    assert_eq!(
        performed(&document, "inline_here", at).as_deref(),
        Some("music = { d4 e }\n\n{ c4 d4 e f }\n")
    );
}

#[test]
fn inlining_everywhere_undoes_an_extraction() {
    let document = one_reference();
    for at in [range_of(&document, 0, "music"), range_of(&document, 18, "\\music")] {
        assert_eq!(
            performed(&document, "inline_all", at).as_deref(),
            Some("{ c4 d4 e f }\n")
        );
    }
}

#[test]
fn a_definition_nothing_refers_to_is_not_inlined() {
    let document = sounding("music = { d4 }\n{ c4 }\n", Vec::new());
    let at = range_of(&document, 0, "music");
    assert!(Action::InlineAll.offer(&document, at).is_none());
    assert!(performed(&document, "inline_all", at).is_none());
}

#[test]
fn inlining_writes_the_durations_that_would_change() {
    let src = "m = { d e8 }\n\n{ c2 \\m f }\n";
    let mut found = events(
        src,
        5,
        &[("d", Some((1, -1)), "4", false), ("e8", Some((2, -1)), "8", true)],
        None,
    );
    found.extend(events(
        src,
        14,
        &[("c2", Some((0, -1)), "2", true), ("f", Some((3, -1)), "2", false)],
        None,
    ));
    let document = sounding(src, found);
    assert_eq!(
        performed(&document, "inline_here", range_of(&document, 14, "\\m")).as_deref(),
        Some("m = { d e8 }\n\n{ c2 d4 e8 f2 }\n")
    );
}

#[test]
fn a_repeat_unfolds_into_its_copies() {
    let src = "{ \\repeat unfold 2 { d e8 } f }\n";
    let found = events(
        src,
        20,
        &[
            ("d", Some((1, -1)), "4", false),
            ("e8", Some((2, -1)), "8", true),
            ("f", Some((3, -1)), "8", false),
        ],
        None,
    );
    let document = sounding(src, found);
    assert_eq!(
        performed(&document, "inline_repeats", range_of(&document, 0, "\\repeat")).as_deref(),
        Some("{ d e8 d4 e8 f }\n")
    );
    assert!(Action::InlineRepeats.offer(&document, range_of(&document, 20, "d")).is_none());
}

#[test]
fn voltas_play_on_their_own_repeats() {
    let src = "{ \\repeat volta 2 { c4 \\volta 1 { d } \\volta 2 { e } } }\n";
    let found = events(
        src,
        19,
        &[
            ("c4", Some((0, -1)), "4", true),
            ("d", Some((1, -1)), "4", false),
            ("e", Some((2, -1)), "4", false),
        ],
        None,
    );
    let document = sounding(src, found);
    assert_eq!(
        performed(&document, "inline_repeats", range_of(&document, 0, "\\repeat")).as_deref(),
        Some("{ c4 d c4 e }\n")
    );
}

#[test]
fn alternatives_are_dealt_out_in_order() {
    let src = "\\repeat volta 2 { c4 } \\alternative { { d } { e } }\n";
    let found = events(
        src,
        17,
        &[
            ("c4", Some((0, -1)), "4", true),
            ("d", Some((1, -1)), "4", false),
            ("e", Some((2, -1)), "4", false),
        ],
        None,
    );
    let document = sounding(src, found);
    assert_eq!(
        performed(&document, "inline_repeats", range_of(&document, 0, "\\repeat")).as_deref(),
        Some("{ c4 d c4 e }\n")
    );
}

#[test]
fn tremolo_is_not_unfolded() {
    let document = sounding("{ \\repeat tremolo 2 { c } }\n", Vec::new());
    assert!(Action::InlineRepeats.offer(&document, range_of(&document, 0, "\\repeat")).is_none());
}

#[test]
fn fewer_endings_than_repeats_leave_the_first_for_the_earliest() {
    let plain = || Ending { span: Span::new(0, 1), voltas: None };
    let two = vec![plain(), plain()];
    let dealt: Vec<Option<usize>> = (1..=4).map(|r| ending_for(r, 4, &two)).collect();
    assert_eq!(dealt, vec![Some(0), Some(0), Some(0), Some(1)]);
    let tagged = vec![
        Ending { span: Span::new(0, 1), voltas: Some(vec![2]) },
        Ending { span: Span::new(0, 1), voltas: Some(vec![1, 3]) },
    ];
    let dealt: Vec<Option<usize>> = (1..=4).map(|r| ending_for(r, 4, &tagged)).collect();
    assert_eq!(dealt, vec![Some(1), Some(0), Some(1), None]);
    assert_eq!(ending_for(1, 2, &Vec::new()), None);
}

#[test]
fn durations_are_written_out() {
    let document = four_notes("{ c4 d e f }\n");
    let all = range_of(&document, 0, "c4 d e f");
    assert_eq!(
        performed(&document, "make_durations_explicit", all).as_deref(),
        Some("{ c4 d4 e4 f4 }\n")
    );
    assert!(Action::MakePitchesExplicit.offer(&document, all).is_none());
    assert_eq!(
        performed(&document, "make_pitches_and_durations_explicit", all).as_deref(),
        Some("{ c4 d4 e4 f4 }\n")
    );
}

#[test]
fn pitches_are_written_out() {
    let src = "{ c4 8 }\n";
    let found = events(
        src,
        2,
        &[("c4", Some((0, -1)), "4", true), ("8", Some((0, -1)), "8", true)],
        None,
    );
    let document = sounding(src, found);
    let all = range_of(&document, 0, "c4 8");
    assert_eq!(
        performed(&document, "make_pitches_explicit", all).as_deref(),
        Some("{ c4 c8 }\n")
    );
    assert!(Action::MakeDurationsExplicit.offer(&document, all).is_none());
}

#[test]
fn every_action_is_found_again_by_its_identifier() {
    let actions = [
        Action::ExtractToVariable,
        Action::InlineAll,
        Action::InlineHere,
        Action::MakeDurationsExplicit,
        Action::MakePitchesExplicit,
        Action::MakeBothExplicit,
        Action::InlineRepeats,
    ];
    let document = four_notes("{ c4 d e f }\n");
    let selection = range_of(&document, 0, "d e");
    for action in actions {
        let own = action.resolve(&document, selection).map(|r| r.edits.len());
        let found = resolve(&document, action.id(), selection).map(|r| r.edits.len());
        assert_eq!(own, found, "{}", action.id());
        assert!(own.is_none() || action.offer(&document, selection).is_some());
    }
    assert!(resolve(&document, "nothing", selection).is_none());
    let offered: Vec<&str> =
        offer_all(&document, selection).iter().map(|offered| offered.action.id()).collect();
    assert_eq!(
        offered,
        vec![
            "extract_to_variable",
            "make_durations_explicit",
            "make_pitches_and_durations_explicit"
        ]
    );
}

#[test]
fn a_relative_note_is_the_nearest_of_its_name() {
    // From c': up to f' and down to g.
    assert_eq!(relative_octave(pitch(0, 0), 3, 0), 0);
    assert_eq!(relative_octave(pitch(0, 0), 4, 0), -1);
    assert_eq!(relative_octave(pitch(6, 0), 0, 0), 1);
    assert_eq!(relative_octave(pitch(0, 0), 4, 2), 1);
    assert_eq!(relative_marks(2), "''");
    assert_eq!(relative_marks(-1), ",");
    assert_eq!(relative_marks(0), "");
}

#[test]
fn respelling_keeps_the_octave() {
    // g' behind c' needs its mark; behind e' it does not.
    let g = pitch(4, 0);
    assert_eq!(
        octave_respelling("g4", Span::new(0, 2), g, pitch(0, 0)),
        Some((Span::new(1, 1), "'".to_string()))
    );
    assert_eq!(
        octave_respelling("g'4", Span::new(0, 3), g, pitch(2, 0)),
        Some((Span::new(1, 2), String::new()))
    );
    assert_eq!(octave_respelling("g4", Span::new(0, 2), g, pitch(2, 0)), None);
    assert_eq!(octave_respelling("g='4", Span::new(0, 4), g, pitch(0, 0)), None);
}

#[test]
fn splices_are_applied_from_the_last_to_the_first() {
    let splices = vec![
        Splice { start: 10, end: 11, text: "X".to_string() },
        Splice { start: 12, end: 12, text: "Y".to_string() },
    ];
    assert_eq!(apply_splices("abc", 10, splices), "XbYc");
}

#[test]
fn a_name_defined_twice_is_not_inlined_at_a_reference() {
    let document = sounding("music = { d4 }\nmusic = { e4 }\n{ \\music }\n", Vec::new());
    assert!(find_definition(&document, "music").is_none());
    let at = range_of(&document, 0, "\\music");
    assert!(Action::InlineHere.offer(&document, at).is_none());
    assert!(performed(&document, "inline_here", at).is_none());
    let once = one_reference();
    assert_eq!(find_definition(&once, "music").expect("defined once").name, "music");
    assert!(find_definition(&once, "other").is_none());
}

#[test]
fn what_a_block_holds_leaves_out_its_delimiters() {
    let src = "{ c } << d >> {} <<>";
    assert_eq!(inner(src, Span::new(0, 5)), Some(Span::new(2, 3)));
    assert_eq!(inner(src, Span::new(6, 13)), Some(Span::new(9, 10)));
    assert_eq!(inner(src, Span::new(14, 16)), Some(Span::new(15, 15)));
    assert_eq!(inner(src, Span::new(17, 20)), None);
    assert_eq!(inner(src, Span::new(14, 15)), None);
}

#[test]
fn repeats_are_counted_from_one() {
    let tagged = vec![Ending { span: Span::new(0, 1), voltas: Some(vec![1]) }];
    assert_eq!(ending_for(0, 1, &tagged), None);
    let plain = vec![Ending { span: Span::new(0, 1), voltas: None }];
    assert_eq!(ending_for(0, 2, &plain), Some(0));
}

#[test]
fn a_respelled_note_needs_no_second_respelling() {
    for (src, outer) in [("x g4 y", 0), ("x g'4 y", 2), ("x g,, y", 0), ("x g'''\\prall y", 2)] {
        let span = Span::new(2, src.len() - 2);
        let g = pitch(4, 0);
        let outer = pitch(outer, 0);
        let (marks, text) = octave_respelling(src, span, g, outer).expect("wrong marks");
        assert_ne!(&src[marks.start..marks.end], text);
        let mut after = src.to_string();
        after.replace_range(marks.start..marks.end, &text);
        let span = Span::new(span.start, span.end + text.len() - (marks.end - marks.start));
        assert_eq!(octave_respelling(&after, span, g, outer), None);
    }
}

#[test]
fn explicit_music_unfolds_into_what_plays_and_its_ending() {
    let src = "\\repeat volta 2 { c4 \\volta 2 { g4 } } \\alternative { { d4 } { e4 } }\n";
    let found = events(
        src,
        17,
        &[
            ("c4", Some((0, -1)), "4", true),
            ("g4", Some((4, -1)), "4", true),
            ("d4", Some((1, -1)), "4", true),
            ("e4", Some((2, -1)), "4", true),
        ],
        None,
    );
    let document = sounding(src, found);
    assert_eq!(
        performed(&document, "inline_repeats", range_of(&document, 0, "\\repeat")).as_deref(),
        Some("{ c4 d4 c4 g4 e4 }\n")
    );
}

#[test]
fn every_event_of_an_extracted_selection_lies_inside_it() {
    let document = four_notes("{ c4 d e f }\n");
    let found = validate(&document, range_of(&document, 0, " d e ")).expect("whole events");
    assert_eq!((found.actual_start, found.actual_end), (5, 8));
    assert_eq!(found.selected, vec![1, 2]);
    for &k in &found.selected {
        let span = document.notes.events[k].span;
        assert!(found.actual_start <= span.start && span.end <= found.actual_end);
    }
}

#[test]
fn inlining_undoes_an_extraction_from_relative_music() {
    let src = "music = \\relative c' { d4 e }\n\n\\relative c' { c4 \\music f }\n";
    let c = Some(pitch(0, 0));
    let mut found = events(
        src,
        22,
        &[("d4", Some((1, 0)), "4", true), ("e", Some((2, 0)), "4", false)],
        c,
    );
    found.extend(events(
        src,
        46,
        &[("c4", Some((0, 0)), "4", true), ("f", Some((3, 0)), "4", false)],
        c,
    ));
    let document = sounding(src, found);
    let at = range_of(&document, 46, "\\music");
    assert_eq!(
        performed(&document, "inline_all", at).as_deref(),
        Some("\\relative c' { c4 d4 e f }\n")
    );
}

#[test]
fn a_block_is_covered_by_itself_alone() {
    let src = "{ c { d } }\n";
    let document = sounding(src, Vec::new());
    let outer = block_node(&document, Span::new(0, 11)).expect("the outer block");
    let nested = block_node(&document, Span::new(4, 9)).expect("the nested block");
    assert!(outer < nested);
    assert!(block_node(&document, Span::new(6, 7)).is_none());
    assert!(block_node(&document, Span::new(2, 9)).is_none());
}

#[test]
fn a_body_over_several_lines_unfolds_line_by_line() {
    let src = "{\n  \\repeat volta 2 { c4 \\alternative {\n    { d4 } { e4 } } }\n}\n";
    let found = events(
        src,
        20,
        &[
            ("c4", Some((0, -1)), "4", true),
            ("d4", Some((1, -1)), "4", true),
            ("e4", Some((2, -1)), "4", true),
        ],
        None,
    );
    let document = sounding(src, found);
    assert_eq!(
        performed(&document, "inline_repeats", range_of(&document, 0, "\\repeat")).as_deref(),
        Some("{\n  c4\n  d4\n  c4\n  e4\n}\n")
    );
}

#[test]
fn a_whole_block_is_extracted_with_white_space_around_it() {
    let document = four_notes("{ c4 d e f }\n");
    for text in ["{ c4 d e f }", "{ c4 d e f }\n"] {
        assert_eq!(
            performed(&document, "extract_to_variable", range_of(&document, 0, text)).as_deref(),
            Some("music = { c4 d e f }\n\n\\music\n")
        );
    }
}

#[test]
fn a_comment_alone_is_not_extracted() {
    let document = four_notes("{ c4 d % hm\n e f }\n");
    for text in ["% hm", " % hm\n"] {
        let at = range_of(&document, 0, text);
        assert!(Action::ExtractToVariable.offer(&document, at).is_none());
    }
}

#[test]
fn a_pitch_is_offered_only_where_there_is_one_to_inherit() {
    let src = "{ 4 c4 8 }\n";
    let found = events(
        src,
        0,
        &[
            ("4", Some((0, -1)), "4", true),
            ("c4", Some((0, -1)), "4", true),
            ("8", Some((0, -1)), "8", true),
        ],
        None,
    );
    let document = sounding(src, found);
    let first = document.line_index.range_of(Span::new(2, 3));
    assert!(Action::MakePitchesExplicit.offer(&document, first).is_none());
    assert!(performed(&document, "make_pitches_explicit", first).is_none());
    let all = document.line_index.range_of(Span::new(0, 10));
    assert!(Action::MakePitchesExplicit.offer(&document, all).is_some());
    assert_eq!(
        performed(&document, "make_pitches_explicit", all).as_deref(),
        Some("{ 4 c4 c8 }\n")
    );
}

#[test]
fn unfolded_relative_music_keeps_its_octaves() {
    let src = "\\relative c' { \\repeat unfold 2 { g'4 c'4 } f4 }\n";
    let found = events(
        src,
        14,
        &[
            ("g'4", Some((4, 0)), "4", true),
            ("c'4", Some((0, 2)), "4", true),
            ("f4", Some((3, 2)), "4", true),
        ],
        Some(pitch(0, 0)),
    );
    let document = sounding(src, found);
    assert_eq!(
        performed(&document, "inline_repeats", range_of(&document, 0, "\\repeat")).as_deref(),
        Some("\\relative c' { g'4 c'4 g,4 c'4 f4 }\n")
    );
}

#[test]
fn inlined_relative_music_keeps_its_octaves() {
    // d' in the definition lies a step above its reference c'; behind a c'' it is a seventh below.
    let src = "music = \\relative c' { d4 e }\n\n\\relative c'' { c4 \\music f, }\n";
    let mut found = events(
        src,
        22,
        &[("d4", Some((1, 0)), "4", true), ("e", Some((2, 0)), "4", false)],
        Some(pitch(0, 0)),
    );
    found.extend(events(
        src,
        47,
        &[("c4", Some((0, 1)), "4", true), ("f,", Some((3, 0)), "4", false)],
        Some(pitch(0, 1)),
    ));
    let document = sounding(src, found);
    let at = range_of(&document, 47, "\\music");
    assert_eq!(
        performed(&document, "inline_all", at).as_deref(),
        Some("\\relative c'' { c4 d,4 e f }\n")
    );
}
