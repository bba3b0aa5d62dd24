//! What an editor asks of the documents: each question names a document by its URI, and is answered
//! from it and from the files that it can reach.
//!
//! A document is the open one under a URI or, where the file is not open, the one read from disk.
//! The `files` of a question are those that the document can reach, itself first.
use vstd::prelude::*;
use std::sync::Arc;
use crate::code_action::{
    Offered, Resolved, action_called, actions, applicable, offer_all, resolve, resolves,
    well_offered,
};
use crate::command::behaviour::CompletionContext;
use crate::command_assist::{
    CompletionItem, Hover, SignatureHelp, are_completions, completions, hover, hover_in, is_hover,
    is_signature, signature_help, site_at,
};
use crate::context::text_in;
use crate::diagnostics::{undefined_among, wrong_with};
use crate::document::Document;
use crate::document_graph::{
    DocumentGraph, File, FileEdit, Highlight, Location, OpenFile, definitions_for, diagnostics,
    document_highlights, file_edit_views, files_wf, goto_definition, highlights_at, location_views,
    name_under, named_at, occurrences, open_wf, references, rename, renamed,
};
use crate::lookup::{name_at_position, path_at};
use crate::protocol::{Diagnostic, Position, Range, diagnostic_views};
use crate::vocabulary::Scope;
use crate::walk::names;

verus! {

/// The zero-width range at the start of a file.
pub fn start_of_file() -> (r: Range)
    ensures
        r == (Range {
            start: Position { line: 0, character: 0 },
            end: Position { line: 0, character: 0 },
        }),
{
    Range::new(Position::new(0, 0), Position::new(0, 0))
}

/// The text that an optional reference points at.
pub open spec fn text_at(text: Option<&str>) -> Option<Seq<char>> {
    match text {
        Some(text) => Some(text@),
        None => None,
    }
}

/// Whether help with a signature is what a document has for a position.
pub open spec fn helps(r: Option<SignatureHelp>, document: Document, position: Position) -> bool {
    match site_at(document, position) {
        Some(site) => {
            let call = document.calls()[site.call as int];
            if call.cmd.params@.len() == 0 {
                r is None
            } else {
                r is Some && is_signature(r->0, call.name@, call.cmd.params@, site.index)
            }
        },
        None => r is None,
    }
}

/// The URIs and documents of files.
pub open spec fn file_pairs(files: Seq<File>) -> Seq<(Seq<char>, Document)> {
    files.map_values(|file: File| (file.uri@, *file.document))
}

/// Those of the first `n` files that a graph has a document of.
pub open spec fn known_among(graph: DocumentGraph, uris: Seq<Seq<char>>, n: int) -> Seq<
    (Seq<char>, Document),
>
    decreases n,
{
    if n <= 0 {
        Seq::empty()
    } else {
        match graph.known_at(uris[n - 1]) {
            Some(document) => known_among(graph, uris, n - 1).push((uris[n - 1], document)),
            None => known_among(graph, uris, n - 1),
        }
    }
}

impl DocumentGraph {
    /// The document under a URI: the open one, or else the one read from disk.
    pub open spec fn known_at(self, uri: Seq<char>) -> Option<Document> {
        if self.documents().contains_key(uri) {
            Some(self.documents()[uri])
        } else if self.remembered().contains_key(uri) {
            Some(*self.remembered()[uri].document)
        } else {
            None
        }
    }

    /// The document under a URI: the open one, or else the one read from disk.
    pub fn known(&self, uri: &str) -> (r: Option<Arc<Document>>)
        requires
            self.wf(),
        ensures
            match r {
                Some(document) => self.known_at(uri@) == Some(*document) && document.derived(),
                None => self.known_at(uri@) is None,
            },
    {
        match self.document(uri) {
            Some(document) => Some(document),
            None => self.read_before(uri),
        }
    }

    /// Those of the files `uris` that there is a document of, in the same order.
    pub fn files(&self, uris: &Vec<String>) -> (r: Vec<File>)
        requires
            self.wf(),
        ensures
            file_pairs(r@) == known_among(*self, names(uris@), uris@.len() as int),
            files_wf(r@),
    {
        let mut out: Vec<File> = Vec::new();
        let mut k: usize = 0;
        assert(file_pairs(out@) =~= Seq::empty());
        while k < uris.len()
            invariant
                self.wf(),
                k <= uris@.len(),
                file_pairs(out@) == known_among(*self, names(uris@), k as int),
                files_wf(out@),
            decreases uris.len() - k,
        {
            assert(names(uris@)[k as int] == uris@[k as int]@);
            match self.known(uris[k].as_str()) {
                Some(document) => {
                    let ghost before = file_pairs(out@);
                    let file = File { uri: uris[k].clone(), document };
                    out.push(file);
                    assert(file_pairs(out@) =~= before.push((file.uri@, *file.document)));
                },
                None => {},
            }
            k = k + 1;
        }
        out
    }

    /// What is wrong with an open document: always what its own text shows and, once the vocabulary
    /// has been loaded, every reference to what its scope does not know.
    pub fn diagnostics(&self, uri: &str, scope: &Scope) -> (r: Vec<Diagnostic>)
        requires
            self.wf(),
        ensures
            diagnostic_views(r@) == if self.documents().contains_key(uri@) {
                let document = self.documents()[uri@];
                wrong_with(document) + (if self.vocabulary() is Some {
                    undefined_among(
                        document.references@,
                        document.bytes(),
                        *scope,
                        document.references@.len() as int,
                    )
                } else {
                    Seq::empty()
                })
            } else {
                Seq::empty()
            },
    {
        match self.document(uri) {
            Some(document) => {
                if self.base().is_some() {
                    diagnostics(&document, Some(scope))
                } else {
                    diagnostics(&document, None)
                }
            },
            None => {
                let none: Vec<Diagnostic> = Vec::new();
                assert(diagnostic_views(none@) =~= Seq::empty());
                none
            },
        }
    }

    /// What to highlight in a document: the pair of brackets at a position, or every occurrence of
    /// the name there.
    pub fn document_highlights(&self, uri: &str, position: Position) -> (r: Vec<Highlight>)
        requires
            self.wf(),
        ensures
            r@ == match self.known_at(uri@) {
                Some(document) => highlights_at(document, position),
                None => Seq::empty(),
            },
    {
        match self.known(uri) {
            Some(document) => document_highlights(&document, position),
            None => Vec::new(),
        }
    }

    /// The path of the included file at a position, which go-to-definition leads to before anything
    /// else.
    pub fn path_at(&self, uri: &str, position: Position) -> (r: Option<String>)
        requires
            self.wf(),
        ensures
            text_in(r) == match self.known_at(uri@) {
                Some(document) => path_at(document, position),
                None => None,
            },
    {
        match self.known(uri) {
            Some(document) => match document.include_at(position) {
                Some(path) => Some(path.to_string()),
                None => None,
            },
            None => None,
        }
    }

    /// Where the name at a position is defined: the context type or instance that a call names, or
    /// the definitions in effect of the symbol there.
    pub fn goto_definition(&self, uri: &str, position: Position, files: &Vec<File>) -> (r: Vec<
        Location,
    >)
        requires
            self.wf(),
            files_wf(files@),
        ensures
            location_views(r@) == match self.known_at(uri@) {
                Some(document) => definitions_for(named_at(document, position), files@, uri@),
                None => Seq::empty(),
            },
    {
        match self.known(uri) {
            Some(document) => goto_definition(&name_under(&document, position), files, uri),
            None => {
                let none: Vec<Location> = Vec::new();
                assert(location_views(none@) =~= Seq::empty());
                none
            },
        }
    }

    /// Where the name at a position is referred to, in the `open` documents that can see what it
    /// means.
    pub fn references(
        &self,
        uri: &str,
        position: Position,
        include_declaration: bool,
        files: &Vec<File>,
        open: &Vec<OpenFile>,
    ) -> (r: Vec<Location>)
        requires
            self.wf(),
            files_wf(files@),
            open_wf(open@),
        ensures
            location_views(r@) == match self.known_at(uri@) {
                Some(document) => occurrences(
                    named_at(document, position),
                    files@,
                    open@,
                    uri@,
                    include_declaration,
                ),
                None => Seq::empty(),
            },
    {
        match self.known(uri) {
            Some(document) => references(
                &name_under(&document, position),
                files,
                open,
                uri,
                include_declaration,
            ),
            None => {
                let none: Vec<Location> = Vec::new();
                assert(location_views(none@) =~= Seq::empty());
                none
            },
        }
    }

    /// The edits that give the symbol at a position another name, everywhere it is defined and in
    /// every `open` document that can see it. `None` where there is no symbol, or where none of the
    /// files defines it.
    pub fn rename(
        &self,
        uri: &str,
        position: Position,
        new_name: &str,
        files: &Vec<File>,
        open: &Vec<OpenFile>,
    ) -> (r: Option<Vec<FileEdit>>)
        requires
            self.wf(),
            files_wf(files@),
            open_wf(open@),
        ensures
            match self.known_at(uri@) {
                Some(document) => match name_at_position(document, position) {
                    Some(name) => match r {
                        Some(edits) => renamed(name, new_name@, files@, open@, uri@) == Some(
                            file_edit_views(edits@),
                        ),
                        None => renamed(name, new_name@, files@, open@, uri@) is None,
                    },
                    None => r is None,
                },
                None => r is None,
            },
    {
        match self.known(uri) {
            Some(document) => match document.symbol_at(position) {
                Some(name) => rename(name, new_name, files, open, uri),
                None => None,
            },
            None => None,
        }
    }

    /// The code actions that apply to a selection.
    pub fn code_actions(&self, uri: &str, selection: Range) -> (r: Vec<Offered>)
        requires
            self.wf(),
        ensures
            r@.map_values(|offered: Offered| offered.action) == match self.known_at(uri@) {
                Some(document) => applicable(document, selection, actions().len() as int),
                None => Seq::empty(),
            },
            forall|k: int| 0 <= k < r@.len() ==> well_offered(#[trigger] r@[k]),
    {
        match self.known(uri) {
            Some(document) => offer_all(&document, selection),
            None => {
                let none: Vec<Offered> = Vec::new();
                assert(none@.map_values(|offered: Offered| offered.action) =~= Seq::empty());
                none
            },
        }
    }

    /// The edits of a code action that was offered before.
    pub fn resolve_code_action(&self, uri: &str, id: &str, selection: Range) -> (r: Option<Resolved>)
        requires
            self.wf(),
        ensures
            match (self.known_at(uri@), action_called(id@)) {
                (Some(document), Some(action)) => resolves(r, action.outcome(document, selection)),
                _ => r is None,
            },
    {
        match self.known(uri) {
            Some(document) => resolve(&document, id, selection),
            None => None,
        }
    }

    /// The signature of the command call at a position, and which of its parameters is there.
    pub fn signature_help(&self, uri: &str, position: Position) -> (r: Option<SignatureHelp>)
        requires
            self.wf(),
        ensures
            match self.known_at(uri@) {
                Some(document) => helps(r, document, position),
                None => r is None,
            },
    {
        match self.known(uri) {
            Some(document) => signature_help(&document, position),
            None => None,
        }
    }

    /// What can be written at a position of a document that sees `scope`.
    pub fn completions(
        &self,
        uri: &str,
        position: Position,
        scope: &Scope,
        language: &tree_sitter::Language,
    ) -> (r: Vec<CompletionItem>)
        requires
            self.wf(),
        ensures
            match self.known_at(uri@) {
                Some(document) => exists|version: Option<&str>|
                    text_at(version) == self.version() && #[trigger] are_completions(
                        r@,
                        document,
                        position,
                        CompletionContext { lilypond_version: version, scope },
                        *language,
                    ),
                None => r@.len() == 0,
            },
    {
        match self.known(uri) {
            Some(document) => {
                let ctx = CompletionContext { lilypond_version: self.lilypond_version(), scope };
                completions(&document, position, &ctx, language)
            },
            None => Vec::new(),
        }
    }

    /// What is known of the name at a position of a document that sees `scope`.
    pub fn hover(
        &self,
        uri: &str,
        position: Position,
        scope: &Scope,
        language: &tree_sitter::Language,
    ) -> (r: Option<Hover>)
        requires
            self.wf(),
        ensures
            match self.known_at(uri@) {
                Some(document) => is_hover(hover_in(r), document, position, *scope, *language),
                None => r is None,
            },
    {
        match self.known(uri) {
            Some(document) => hover(&document, position, scope, language),
            None => None,
        }
    }
}

} // verus!
