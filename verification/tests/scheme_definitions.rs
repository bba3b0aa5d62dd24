use ly_lsp::command::ArgKind;
use ly_lsp::command::calls::Commands;
use ly_lsp::command::collect::collect_calls;
use ly_lsp::command::definition::Binding;
use ly_lsp::command::definition;
use ly_lsp::command::scheme;
use ly_lsp::command::texinfo::texinfo_to_markdown;
use ly_lsp::document::{Document, NoteAnalysis};
use ly_lsp::grammar::{Row, tree_of};
use ly_lsp::line_struct::Span;
use ly_lsp::note_names::{NoteLanguage, NoteName};
use ly_lsp::scope::Base;
use ly_lsp::syntax::SyntaxTree;
use ly_lsp::vocabulary::Layer;
use ly_lsp::vocabulary::Scope;
use std::sync::Arc;

/// Reads LilyPond source into rows, with the shapes that the LilyPond grammar gives it.
#[allow(dead_code)]
struct Reader<'a> {
    src: &'a str,
    at: usize,
    rows: Vec<Row>,
}

#[allow(dead_code)]
impl<'a> Reader<'a> {
    fn rest(&self) -> &'a str {
        &self.src[self.at..]
    }

    fn peek(&self) -> Option<char> {
        self.rest().chars().next()
    }

    fn skip_white(&mut self) {
        while let Some(c) = self.peek() {
            if !c.is_whitespace() {
                break;
            }
            self.at += c.len_utf8();
        }
    }

    fn push(&mut self, kind: &str, named: bool, depth: u32) -> usize {
        self.rows.push(Row {
            kind: kind.to_string(),
            start: self.at,
            end: self.at,
            named,
            missing: false,
            error: kind == "ERROR",
            has_error: false,
            depth,
        });
        self.rows.len() - 1
    }

    fn close(&mut self, row: usize) {
        self.rows[row].end = self.at;
    }

    fn token(&mut self, kind: &str, named: bool, depth: u32, len: usize) {
        let row = self.push(kind, named, depth);
        self.at += len;
        self.close(row);
    }

    /// The length of the word at the start of `text`.
    fn word_len(text: &str) -> usize {
        let bytes = text.as_bytes();
        let mut n: usize = 0;
        loop {
            while n < bytes.len() && bytes[n].is_ascii_alphabetic() {
                n += 1;
            }
            let joined = n > 0
                && n + 1 < bytes.len()
                && (bytes[n] == b'-' || bytes[n] == b'_')
                && bytes[n + 1].is_ascii_alphabetic();
            if !joined {
                return n;
            }
            n += 1;
        }
    }

    fn string(&mut self, depth: u32, prefix: &str) {
        let rest = self.rest();
        let bytes = rest.as_bytes();
        let mut n: usize = 1;
        while n < bytes.len() && bytes[n] != b'"' {
            n += if bytes[n] == b'\\' { 2 } else { 1 };
        }
        if n >= bytes.len() {
            self.token("\"", false, depth, 1);
            return;
        }
        let end = self.at + n;
        let string = self.push(&format!("{prefix}string"), true, depth);
        self.token("\"", false, depth + 1, 1);
        while self.at < end {
            if self.peek() == Some('\\') {
                self.token(&format!("{prefix}escape_sequence"), true, depth + 1, 2);
            } else {
                let len = self.src[self.at..end].find('\\').unwrap_or(end - self.at);
                self.token(&format!("{prefix}string_fragment"), true, depth + 1, len);
            }
        }
        self.token("\"", false, depth + 1, 1);
        self.close(string);
    }

    fn scheme(&mut self, depth: u32) {
        self.skip_white();
        let rest = self.rest();
        if rest.starts_with('(') {
            let list = self.push("scheme_list", true, depth);
            self.token("(", false, depth + 1, 1);
            loop {
                self.skip_white();
                match self.peek() {
                    None => {
                        self.rows[list].kind = "ERROR".to_string();
                        self.rows[list].error = true;
                        break;
                    }
                    Some(')') => {
                        self.token(")", false, depth + 1, 1);
                        break;
                    }
                    Some(_) => self.scheme(depth + 1),
                }
            }
            self.close(list);
        } else if rest.starts_with('"') {
            self.string(depth, "scheme_");
        } else if rest.starts_with("#{") {
            let len = rest.find("#}").map_or(rest.len(), |n| n + 2);
            self.token("scheme_embedded_lilypond", true, depth, len);
        } else if rest.starts_with(';') {
            let len = rest.find('\n').unwrap_or(rest.len());
            self.token("comment", true, depth, len);
        } else if rest.starts_with('\'') {
            let quote = self.push("scheme_quote", true, depth);
            self.token("'", false, depth + 1, 1);
            self.scheme(depth + 1);
            self.close(quote);
        } else {
            let len = rest
                .find(|c: char| c.is_whitespace() || c == '(' || c == ')' || c == '"')
                .unwrap_or(rest.len())
                .max(1);
            let digits = rest[..len].chars().all(|c| c.is_ascii_digit() || c == '-');
            let kind = if digits { "scheme_number" } else { "scheme_symbol" };
            self.token(kind, true, depth, len);
        }
    }

    /// Everything from `open` to `close`, as one node.
    fn block(&mut self, kind: &str, depth: u32, open: &str, close: &str) {
        let block = self.push(kind, true, depth);
        self.token(open, false, depth + 1, open.len());
        self.row(depth + 1, Some(close));
        if self.rest().starts_with(close) {
            self.token(close, false, depth + 1, close.len());
        } else {
            self.rows[block].kind = "ERROR".to_string();
            self.rows[block].error = true;
        }
        self.close(block);
    }

    fn path(&mut self, depth: u32, end: usize) {
        let text = &self.src[self.at..end];
        if !text.contains('.') {
            self.token("symbol", true, depth, text.len());
            return;
        }
        let path = self.push("property_expression", true, depth);
        while self.at < end {
            let rest = &self.src[self.at..end];
            if rest.starts_with('.') {
                self.token("punctuation", true, depth + 1, 1);
            } else {
                let len = rest.find('.').unwrap_or(rest.len());
                self.token("symbol", true, depth + 1, len);
            }
        }
        self.close(path);
    }

    fn word(&mut self, depth: u32) {
        let rest = self.rest();
        let mut end: usize = Self::word_len(rest);
        while rest[end..].starts_with('.') && Self::word_len(&rest[end + 1..]) > 0 {
            end = end + 1 + Self::word_len(&rest[end + 1..]);
        }
        let behind = rest[end..].trim_start();
        let assigned = behind.starts_with('=')
            && !behind.starts_with("='")
            && !behind.starts_with("=,");
        let end = self.at + end;
        if assigned {
            let lhs = self.push("assignment_lhs", true, depth);
            self.path(depth + 1, end);
            self.close(lhs);
        } else {
            self.path(depth, end);
        }
    }

    fn command(&mut self, depth: u32) {
        let rest = self.rest();
        let len = 1 + Self::word_len(&rest[1..]);
        if len == 1 {
            let len = rest.chars().take(2).map(char::len_utf8).sum();
            self.token("escaped_word", true, depth, len);
            return;
        }
        let word = &rest[..len];
        let behind = rest[len..].trim_start();
        let typed = behind.starts_with(|c: char| c.is_ascii_alphabetic());
        if (word == "\\new" || word == "\\context") && typed {
            let context = self.push("named_context", true, depth);
            self.token("escaped_word", true, depth + 1, len);
            self.skip_white();
            let len = Self::word_len(self.rest());
            self.token("symbol", true, depth + 1, len);
            self.close(context);
            if self.rest().trim_start().starts_with('=') {
                self.skip_white();
                self.token("punctuation", true, depth + 1, 1);
                self.close(context);
                let behind = self.rest().trim_start();
                if behind.starts_with('"') {
                    self.skip_white();
                    self.string(depth + 1, "");
                    self.close(context);
                } else if Self::word_len(behind) > 0 {
                    self.skip_white();
                    let len = Self::word_len(self.rest());
                    self.token("symbol", true, depth + 1, len);
                    self.close(context);
                }
            }
        } else if word == "\\new" {
            let error = self.push("ERROR", true, depth);
            self.token("escaped_word", true, depth + 1, len);
            self.close(error);
        } else {
            self.token("escaped_word", true, depth, len);
        }
    }

    fn item(&mut self, depth: u32) {
        let rest = self.rest();
        let c = self.peek().unwrap();
        if rest.starts_with("%{") {
            let len = rest.find("%}").map_or(rest.len(), |n| n + 2);
            self.token("comment", true, depth, len);
        } else if c == '%' {
            let len = rest.find('\n').unwrap_or(rest.len());
            self.token("comment", true, depth, len);
        } else if c == '"' {
            self.string(depth, "");
        } else if c == '\\' {
            self.command(depth);
        } else if c == '{' {
            self.block("expression_block", depth, "{", "}");
        } else if rest.starts_with("<<") {
            self.block("parallel_music", depth, "<<", ">>");
        } else if c == '<' {
            self.block("chord", depth, "<", ">");
        } else if c == '}' {
            let error = self.push("ERROR", true, depth);
            self.token("}", false, depth + 1, 1);
            self.close(error);
        } else if c == '#' || c == '$' {
            let scheme = self.push("embedded_scheme", true, depth);
            self.token("embedded_scheme_prefix", true, depth + 1, 1);
            let text = self.push("embedded_scheme_text", true, depth + 1);
            self.scheme(depth + 2);
            self.close(text);
            self.close(scheme);
        } else if c.is_ascii_digit() {
            let len = rest.find(|c: char| !c.is_ascii_digit()).unwrap_or(rest.len());
            let behind = &rest[len..];
            if behind.starts_with('/') && behind[1..].starts_with(|c: char| c.is_ascii_digit()) {
                let more = behind[1..]
                    .find(|c: char| !c.is_ascii_digit())
                    .unwrap_or(behind.len() - 1);
                self.token("fraction", true, depth, len + 1 + more);
            } else {
                self.token("unsigned_integer", true, depth, len);
            }
        } else if c.is_ascii_alphabetic() {
            self.word(depth);
        } else {
            self.token("punctuation", true, depth, c.len_utf8());
        }
    }

    /// Everything up to `close`, or to the end.
    fn row(&mut self, depth: u32, close: Option<&str>) {
        loop {
            self.skip_white();
            if self.rest().is_empty() {
                return;
            }
            if close.is_some_and(|close| self.rest().starts_with(close)) {
                return;
            }
            self.item(depth);
        }
    }
}

/// The syntax tree of `src`.
#[allow(dead_code)]
fn tree(src: &str) -> SyntaxTree {
    let mut reader = Reader { src, at: 0, rows: Vec::new() };
    let root = reader.push("lilypond_program", true, 0);
    reader.row(1, None);
    reader.at = src.len();
    reader.close(root);
    let mut rows = reader.rows;
    for i in 0..rows.len() {
        let mut stop: usize = i + 1;
        while stop < rows.len() && rows[stop].depth > rows[i].depth {
            stop += 1;
        }
        let wrong = rows[i..stop].iter().any(|row| row.error || row.missing);
        rows[i].has_error = wrong;
    }
    tree_of(rows).expect("one tree")
}

/// The Dutch note names.
#[allow(dead_code)]
fn dutch() -> NoteLanguage {
    let mut notes: Vec<NoteName> = Vec::new();
    for (note_name, letter) in ["c", "d", "e", "f", "g", "a", "b"].iter().enumerate() {
        for (suffix, alteration) in [("", 0i8), ("is", 1), ("es", -1)] {
            notes.push(NoteName {
                text: format!("{letter}{suffix}"),
                note_name: note_name as u8,
                alteration,
            });
        }
    }
    NoteLanguage { name: "nederlands".to_string(), notes }
}

/// This library's own layers.
#[allow(dead_code)]
fn base() -> Base {
    Base::builtins(vec![Arc::new(dutch())])
}

/// The scope of a file that defines nothing.
#[allow(dead_code)]
fn builtins_only() -> Scope {
    base().for_document(&Vec::new())
}

/// Every call of `src`, in source order.
#[allow(dead_code)]
fn calls_of(tree: &SyntaxTree, src: &str, scope: &Scope) -> Commands {
    collect_calls(tree, src, &dutch(), scope)
}

/// The document of a file called `origin`, and the scope it makes on its own.
#[allow(dead_code)]
fn named(origin: &str, src: &str, id: u64) -> (Document, Scope) {
    let mut document =
        Document::from_parts(src.to_string(), tree(src), Arc::new(origin.to_string()), id);
    let scope = base().for_document(&vec![document.commands_defined.clone()]);
    let commands = calls_of(&document.tree, src, &scope);
    let notes = NoteAnalysis { events: Vec::new(), commands, problems: Vec::new() };
    document.refresh(&scope, notes);
    (document, scope)
}

#[allow(dead_code)]
fn document(src: &str) -> Document {
    named("untitled", src, 10).0
}

fn bindings(src: &str) -> Vec<Binding> {
    scheme::read(&tree(src), src)
}

/// The layer that the Scheme of `src` alone makes.
fn layer(src: &str) -> Layer {
    let source = Arc::new(src.to_string());
    definition::layer(bindings(src), source, Arc::new("test.ly".to_string()), 10)
}

/// How a kind is written.
fn kind(kind: ArgKind) -> String {
    format!("{kind:?}")
}

/// The parameters of `\name`: what each is called, its kind, and whether it is optional.
fn params(src: &str, name: &str) -> Vec<(String, String, bool)> {
    layer(src)
        .get(name)
        .expect("a definition")
        .params
        .iter()
        .map(|p| (p.name.clone(), format!("{:?}", p.kind), p.optional))
        .collect()
}

/// The names `src` binds from inside Scheme, with the text each span
/// covers, so a test can check *where* a definition was found and not only
/// that it was.
fn names(src: &str) -> Vec<(String, &str)> {
    bindings(src)
        .into_iter()
        .map(|binding| {
            let span = &src[binding.span.start..binding.span.end];
            (binding.name, span)
        })
        .collect()
}

#[test]
fn reads_an_assigned_music_function() {
    assert_eq!(
        params(
            "myFunc = #(define-music-function (music) (ly:music?) music)",
            "myFunc"
        ),
        vec![("music".to_string(), kind(ArgKind::Music), false)]
    );
}

#[test]
fn reads_the_legacy_parser_and_location_arguments_as_neither() {
    assert_eq!(
        params(
            "cnt = #(define-music-function (parser location note) (ly:music?) note)",
            "cnt"
        ),
        vec![("note".to_string(), kind(ArgKind::Music), false)]
    );
}

#[test]
fn reads_an_optional_argument_from_its_default() {
    assert_eq!(
        params(
            "myFunc = #(define-music-function (n music) ((integer? 3) ly:music?) music)",
            "myFunc"
        ),
        vec![
            ("n".to_string(), kind(ArgKind::Count), true),
            ("music".to_string(), kind(ArgKind::Music), false),
        ]
    );
}

#[test]
fn an_unrecognised_predicate_keeps_its_name() {
    assert_eq!(
        params(
            "myFunc = #(define-music-function (x) (ly:duration?) x)",
            "myFunc"
        ),
        vec![(
            "x".to_string(),
            kind(ArgKind::Unknown("ly:duration?".into())),
            false
        )]
    );
}

#[test]
fn reads_a_function_bound_inside_scheme() {
    let src = "#(define-public myFunc (define-music-function (m) (ly:music?) m))";
    assert_eq!(
        layer(src).get("myFunc").expect("myFunc").params.len(),
        1
    );
    assert_eq!(names(src), vec![("myFunc".to_string(), "myFunc")]);
}

#[test]
fn a_scheme_binding_defines_a_name_whatever_its_value() {
    let src = "#(define-public answer 42)\n#(define myColour (x11-color 'red))\n";
    assert_eq!(
        names(src),
        vec![
            ("answer".to_string(), "answer"),
            ("myColour".to_string(), "myColour"),
        ]
    );
    let layer = layer(src);
    for name in ["answer", "myColour"] {
        assert!(layer.get(name).expect(name).params.is_empty());
    }
}

#[test]
fn an_assigned_definition_is_named_by_its_left_hand_side() {
    let src = "myFunc = #(define-music-function (m) (ly:music?) m)";
    assert_eq!(names(src), vec![("myFunc".to_string(), "myFunc")]);
    assert_eq!(bindings(src)[0].span, Span::new(0, 6));
}

#[test]
fn event_scheme_and_void_functions_are_commands_too() {
    let src = "a = #(define-event-function (x) (number?) x)\n\
               b = #(define-scheme-function (x) (string?) x)\n\
               c = #(define-void-function () () (display 1))\n";
    let layer = layer(src);
    assert!(layer.get("a").is_some());
    assert!(layer.get("b").is_some());
    assert_eq!(layer.get("c").expect("c").params.len(), 0);
}

#[test]
fn ordinary_scheme_defines_no_music_function() {
    let src = "#(define (helper x) (* x 2))\n\
               #(define-public answer 42)\n\
               #(use-modules (lily accreg))\n\
               plain = { c d e }\n";
    assert_eq!(names(src), vec![("answer".to_string(), "answer")]);
    assert!(
        layer(src)
            .get("answer")
            .expect("answer")
            .params
            .is_empty()
    );
}

#[test]
fn a_half_typed_definition_is_no_definition() {
    assert!(
        layer("myFunc = #(define-music-function (m)")
            .get("myFunc")
            .is_none()
    );
}

#[test]
fn reads_a_docstring_as_markdown() {
    let src = "myFunc = #(define-music-function (m) (ly:music?)\n\
               \x20 \"Repeat @var{m} twice, as @code{c4 c4}.\"\n\
               \x20 m)";
    let layer = layer(src);
    let command = layer.get("myFunc").expect("myFunc");
    let doc = command.documentation.as_ref().expect("a docstring");
    assert_eq!(doc, "Repeat *m* twice, as `c4 c4`.");
}

#[test]
fn unwraps_a_gettext_docstring() {
    let src = "myFunc = #(define-music-function (m) (ly:music?) (_i \"Do a thing.\") m)";
    let layer = layer(src);
    assert_eq!(
        layer
            .get("myFunc")
            .expect("myFunc")
            .documentation.as_ref()
            .expect("a docstring"),
        "Do a thing."
    );
}

#[test]
fn a_function_with_no_docstring_has_no_documentation() {
    let layer = layer("myFunc = #(define-music-function (m) (ly:music?) m)");
    assert!(
        layer
            .get("myFunc")
            .expect("myFunc")
            .documentation.as_ref()
            .is_none()
    );
}

#[test]
fn reads_a_real_library_of_accordion_functions() {
    let src = "\
% indicate a counterbass note
cnt = #(define-music-function (parser location note) (ly:music?) #{ \\tweak NoteHead.color #darkgreen $note #})

min = #(define-music-function (parser location note) (ly:music?) #{ \\tweak NoteHead.color #(x11-color 'firebrick) $note #})

sev = #(define-music-function (parser location note) (ly:music?) #{ \\tweak NoteHead.color #blue $note #})
dimin = #(define-music-function (parser location note) (ly:music?) #{ \\tweak NoteHead.color #(x11-color 'BlueViolet) $note #})

#(use-modules (lily accreg))
";
    let layer = layer(src);
    assert_eq!(layer.len(), 4);
    for name in ["cnt", "min", "sev", "dimin"] {
        let command = layer.get(name).unwrap_or_else(|| panic!("{name}"));
        assert_eq!(command.name, name);
        assert_eq!(
            command
                .params
                .iter()
                .map(|p| p.name.as_str())
                .collect::<Vec<_>>(),
            vec!["note"],
            "the legacy parser/location pair should not be parameters"
        );
    }
}

#[test]
fn curried_and_plain_scheme_procedures_define_no_commands() {
    let src = "\
#(define (convolve music)
  (let ((elems (ly:music-property music 'elements)))
music))

#(define ((convolvelist rhythm) pitches)
  (map (lambda (p) p) pitches))
";
    assert_eq!(layer(src).len(), 0);
}

#[test]
fn texinfo_markup_becomes_markdown() {
    assert_eq!(texinfo_to_markdown("plain text"), "plain text");
    assert_eq!(texinfo_to_markdown("@var{x} and @code{y}"), "*x* and `y`");
    assert_eq!(
        texinfo_to_markdown("@bold{very @var{bold}}"),
        "**very *bold***"
    );
    assert_eq!(texinfo_to_markdown("@unknown{kept}"), "kept");
    assert_eq!(texinfo_to_markdown("100@@ @{braced@}"), "100@ {braced}");
    assert_eq!(texinfo_to_markdown("@code{oops"), "code{oops");
}

/// Every text of up to `longest` pieces of `alphabet`.
fn texts(alphabet: &[&str], longest: usize) -> Vec<String> {
    let mut all = vec![String::new()];
    let mut last = all.clone();
    for _ in 0..longest {
        let mut next: Vec<String> = Vec::new();
        for text in &last {
            for piece in alphabet {
                next.push(format!("{text}{piece}"));
            }
        }
        all.extend(next.iter().cloned());
        last = next;
    }
    all
}

fn plain_texts() -> Vec<String> {
    texts(&["a", "Z", "7", " ", ",", ".", "!", "?", "bc d"], 3)
}

fn markup_texts() -> Vec<String> {
    texts(&["@", "{", "}", "var", "code", "bold", "x"], 5)
}

#[test]
fn texinfo_to_markdown_never_panics() {
    for text in markup_texts() {
        let _ = texinfo_to_markdown(&text);
    }
}

#[test]
fn texinfo_to_markdown_is_identity_without_markup() {
    for text in plain_texts() {
        assert_eq!(texinfo_to_markdown(&text), text);
    }
}

#[test]
fn escapes_decode_to_the_reserved_character() {
    for t in plain_texts() {
        assert_eq!(texinfo_to_markdown(&format!("{t}@@{t}")), format!("{t}@{t}"));
        assert_eq!(texinfo_to_markdown(&format!("{t}@{{{t}")), format!("{t}{{{t}"));
        assert_eq!(texinfo_to_markdown(&format!("{t}@}}{t}")), format!("{t}}}{t}"));
    }
}

#[test]
fn no_recognised_markup_command_survives() {
    for text in markup_texts() {
        if text.contains("@@") {
            continue;
        }
        let markdown = texinfo_to_markdown(&text);
        let survived =
            ["@var{", "@code{", "@bold{"].into_iter().find(|marker| markdown.contains(marker));
        assert_eq!(survived, None, "{text:?}");
    }
}

#[test]
fn a_docstring_is_read_whole_with_its_escapes_decoded() {
    let src =
        "myFunc = #(define-music-function (m) (ly:music?) \"Say \\\"hi\\\" to @var{m}.\" m)";
    let layer = layer(src);
    let command = layer.get("myFunc").expect("myFunc");
    assert_eq!(command.documentation.as_deref(), Some("Say \"hi\" to *m*."));
}

#[test]
fn an_escaped_brace_closes_no_group() {
    assert_eq!(texinfo_to_markdown("@code{@}} and @var{@{x@}}"), "`}` and *{x}*");
    assert_eq!(texinfo_to_markdown("@code{a@@} b"), "`a@` b");
    assert_eq!(texinfo_to_markdown("@code{@}"), "code{}");
}
