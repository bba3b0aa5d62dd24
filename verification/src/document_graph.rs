//! Resolution across the files that `\include` connects.
//!
//! Which files a document can reach is found by a [`Walk`](crate::walk::Walk); here they are at
//! hand, nearest first. References come only from open documents that can see a definition, so that
//! two unrelated files reusing a spelling are never conflated.
use vstd::prelude::*;
use std::hash::RandomState;
use std::sync::Arc;
use crate::diagnostics::{undefined_among, wrong_with};
use crate::command::Arg;
use crate::context::text_in;
use crate::document::{
    Change, Document, NoteAnalysis, Source, after, changed, forward, holdable, parsed_alone,
};
use crate::finding::first_from;
use crate::line_struct::{LineIndex, offset_of, range_between};
use crate::lookup::{
    bears, brackets_at, context_at, defined_at, in_effect, instance_uses, name_at_position, path_at,
    ranges_of, type_uses, uses_of,
};
use crate::open_documents::{Held, discard, empty_map, held, keys, look_up, nothing_held, put};
use crate::protocol::{
    Diagnostic, DiagnosticView, EditView, Position, Range, TextEdit, diagnostic_views,
};
use crate::scope::{Base, layer_ids, stacked};
use crate::text::{replace_range, same};
use crate::vocabulary::{Layer, Scope, instance_among, type_among};
use crate::walk::{holds_name, names};

verus! {

/// Why the vocabulary could not be loaded.
#[derive(Debug)]
pub enum LoadVocabularyError {
    /// Something that had to be read could not be; the text says why.
    Io(String),
    /// The vocabulary was loaded already; it is not overwritten.
    AlreadyLoaded,
}

impl LoadVocabularyError {
    /// What to tell the user.
    pub fn message(&self) -> (r: String)
        ensures
            r@ == match *self {
                LoadVocabularyError::Io(reason) => reason@,
                LoadVocabularyError::AlreadyLoaded => "vocabulary was already loaded"@,
            },
    {
        match self {
            LoadVocabularyError::Io(reason) => reason.clone(),
            LoadVocabularyError::AlreadyLoaded => "vocabulary was already loaded".to_string(),
        }
    }
}

/// Whether a document `now` is `before`, with what `notes` makes of its music in `scope` where it
/// was last analysed in another scope.
pub open spec fn refreshes(before: Document, now: Document, scope: Scope, notes: NoteAnalysis) -> bool {
    if before.analysed_in@ == layer_ids(scope.layers@) {
        now == before
    } else {
        &&& now.source() == before.source()
        &&& now.nodes() == before.nodes()
        &&& now.commands_defined.origin@ == before.commands_defined.origin@
        &&& now.commands_defined.id == before.commands_defined.id
        &&& now.notes == notes
        &&& now.analysed_in@ == layer_ids(scope.layers@)
    }
}

/// The documents of a map, without what else it holds.
pub open spec fn documents_in(entries: Map<Seq<char>, Held>) -> Map<Seq<char>, Document> {
    entries.map_values(|entry: Held| *entry.document)
}

/// The documents currently open, those read from disk, and what they share.
pub struct DocumentGraph {
    open: dashmap::DashMap<String, Held, RandomState>,
    /// Documents read from disk, because a file that is open includes them.
    cache: dashmap::DashMap<String, Held, RandomState>,
    base: Option<Base>,
    lilypond_version: Option<String>,
    search_paths: Option<Vec<String>>,
}

/// The text that changes leave, applied in order.
pub open spec fn changed_all(text: Seq<char>, changes: Seq<Change>) -> Seq<char>
    decreases changes.len(),
{
    if changes.len() == 0 {
        text
    } else {
        changed(changed_all(text, changes.drop_last()), changes.last())
    }
}

/// Whether no range of changes, applied in order, ends before it starts.
pub open spec fn all_forward(text: Seq<char>, changes: Seq<Change>) -> bool {
    forall|k: int|
        0 <= k < changes.len() ==> forward(
            changed_all(text, #[trigger] changes.subrange(0, k)),
            changes[k],
        )
}

/// The text that changes leave, applied in order, and what the parser makes of it; none where one
/// of them leaves a text that a document cannot hold.
pub open spec fn after_all(
    language: tree_sitter::Language,
    source: Source,
    changes: Seq<Change>,
) -> Option<Source>
    decreases changes.len(),
{
    if changes.len() == 0 {
        Some(source)
    } else {
        match after_all(language, source, changes.drop_last()) {
            Some(before) => if holdable(after(language, before, changes.last())) {
                Some(after(language, before, changes.last()))
            } else {
                None
            },
            None => None,
        }
    }
}

proof fn lemma_after_all_text(
    language: tree_sitter::Language,
    source: Source,
    changes: Seq<Change>,
)
    ensures
        after_all(language, source, changes) matches Some(now) ==> now.text == changed_all(
            source.text,
            changes,
        ),
    decreases changes.len(),
{
    if changes.len() > 0 {
        lemma_after_all_text(language, source, changes.drop_last());
    }
}

proof fn lemma_after_all_stops(
    language: tree_sitter::Language,
    source: Source,
    changes: Seq<Change>,
    k: int,
)
    requires
        0 <= k <= changes.len(),
        after_all(language, source, changes.subrange(0, k)) is None,
    ensures
        after_all(language, source, changes) is None,
    decreases changes.len(),
{
    if k < changes.len() {
        assert(changes.drop_last().subrange(0, k) =~= changes.subrange(0, k));
        lemma_after_all_stops(language, source, changes.drop_last(), k);
    } else {
        assert(changes.subrange(0, k) =~= changes);
    }
}

impl DocumentGraph {
    /// The open documents, by URI.
    pub closed spec fn documents(self) -> Map<Seq<char>, Document> {
        documents_in(held(self.open))
    }

    /// The documents read from disk, by URI, each with the time its file was last written.
    pub closed spec fn remembered(self) -> Map<Seq<char>, Held> {
        held(self.cache)
    }

    /// The layers loaded from an installation, over the built-in ones; none until that succeeds.
    pub closed spec fn vocabulary(self) -> Option<Base> {
        self.base
    }

    /// The version of the installation, where it is known.
    pub closed spec fn version(self) -> Option<Seq<char>> {
        text_in(self.lilypond_version)
    }

    /// The directories to search for included files, in order.
    pub closed spec fn directories(self) -> Option<Seq<Seq<char>>> {
        match self.search_paths {
            Some(paths) => Some(names(paths@)),
            None => None,
        }
    }

    /// Every document agrees with its text.
    pub open spec fn wf(self) -> bool {
        &&& forall|uri: Seq<char>| #[trigger]
            self.documents().contains_key(uri) ==> self.documents()[uri].derived()
        &&& forall|uri: Seq<char>| #[trigger]
            self.remembered().contains_key(uri) ==> self.remembered()[uri].document.derived()
    }

    /// No documents, and nothing loaded.
    pub fn new() -> (r: Self)
        ensures
            r.wf(),
            r.documents() == Map::<Seq<char>, Document>::empty(),
            r.remembered() == nothing_held(),
            r.vocabulary() is None,
            r.version() is None,
            r.directories() is None,
    {
        let r = Self {
            open: empty_map(),
            cache: empty_map(),
            base: None,
            lilypond_version: None,
            search_paths: None,
        };
        assert(r.documents() =~= Map::empty());
        r
    }

    /// Opens a document: its live text supersedes whatever was known under the URI, and what was read
    /// from disk is forgotten. `false`, with no document opened, where the text is none that a
    /// document can hold.
    pub fn open(
        &mut self,
        uri: String,
        text: String,
        origin: Arc<String>,
        language: &tree_sitter::Language,
        id: u64,
    ) -> (r: bool)
        requires
            old(self).wf(),
        ensures
            final(self).wf(),
            r == holdable(parsed_alone(*language, text@)),
            final(self).remembered() == old(self).remembered().remove(uri@),
            !r ==> final(self).documents() == old(self).documents(),
            r ==> {
                &&& final(self).documents().contains_key(uri@)
                &&& final(self).documents() == old(self).documents().insert(
                    uri@,
                    final(self).documents()[uri@],
                )
                &&& final(self).documents()[uri@].source() == parsed_alone(*language, text@)
                &&& final(self).documents()[uri@].unanalysed()
                &&& final(self).documents()[uri@].commands_defined.origin@ == origin@
                &&& final(self).documents()[uri@].commands_defined.id == id
            },
            final(self).vocabulary() == old(self).vocabulary(),
            final(self).version() == old(self).version(),
            final(self).directories() == old(self).directories(),
    {
        discard(&mut self.cache, uri.as_str());
        proof {
            self.lemma_still_wf(*old(self), uri@);
        }
        match Document::new(text, language, origin, id) {
            Some(document) => {
                self.set_open(uri, document);
                true
            },
            None => false,
        }
    }

    /// Puts a document among the open ones.
    fn set_open(&mut self, uri: String, document: Document)
        requires
            old(self).wf(),
            document.derived(),
        ensures
            final(self).wf(),
            final(self).documents() == old(self).documents().insert(uri@, document),
            final(self).remembered() == old(self).remembered(),
            final(self).vocabulary() == old(self).vocabulary(),
            final(self).version() == old(self).version(),
            final(self).directories() == old(self).directories(),
    {
        let entry = Held { document: Arc::new(document), modified: None };
        put(&mut self.open, uri, entry);
        assert(self.documents() =~= old(self).documents().insert(uri@, document));
    }

    /// Forgetting a document that was read from disk leaves the others as they were.
    proof fn lemma_still_wf(self, before: Self, uri: Seq<char>)
        requires
            before.wf(),
            self.documents() == before.documents(),
            self.remembered() == before.remembered().remove(uri),
        ensures
            self.wf(),
    {
        assert forall|other: Seq<char>| #[trigger]
            self.remembered().contains_key(other) implies self.remembered()[other].document.derived() by {
            assert(before.remembered().contains_key(other));
        }
    }

    /// Closes a document.
    pub fn close(&mut self, uri: &str)
        requires
            old(self).wf(),
        ensures
            final(self).wf(),
            final(self).documents() == old(self).documents().remove(uri@),
            final(self).remembered() == old(self).remembered(),
            final(self).vocabulary() == old(self).vocabulary(),
            final(self).version() == old(self).version(),
            final(self).directories() == old(self).directories(),
    {
        discard(&mut self.open, uri);
        assert(self.documents() =~= old(self).documents().remove(uri@));
        assert forall|other: Seq<char>| #[trigger]
            self.documents().contains_key(other) implies self.documents()[other].derived() by {
            assert(old(self).documents().contains_key(other));
        }
    }

    /// The open document under `uri`.
    pub fn document(&self, uri: &str) -> (r: Option<Arc<Document>>)
        requires
            self.wf(),
        ensures
            match r {
                Some(document) => {
                    &&& self.documents().contains_key(uri@)
                    &&& self.documents()[uri@] == *document
                    &&& document.derived()
                },
                None => !self.documents().contains_key(uri@),
            },
    {
        match look_up(&self.open, uri) {
            Some(entry) => {
                assert(self.documents().contains_key(uri@));
                Some(entry.document)
            },
            None => None,
        }
    }

    /// The document of a file that was read from disk, where the file was not written since:
    /// `modified` is when it last was.
    pub fn cached(&self, uri: &str, modified: i128) -> (r: Option<Arc<Document>>)
        requires
            self.wf(),
        ensures
            match r {
                Some(document) => {
                    &&& self.remembered().contains_key(uri@)
                    &&& self.remembered()[uri@] == (Held { document, modified: Some(modified) })
                    &&& document.derived()
                },
                None => !(self.remembered().contains_key(uri@)
                    && self.remembered()[uri@].modified == Some(modified)),
            },
    {
        match look_up(&self.cache, uri) {
            Some(entry) => {
                assert(self.remembered().contains_key(uri@));
                match entry.modified {
                    Some(then) => if then == modified {
                        Some(entry.document)
                    } else {
                        None
                    },
                    None => None,
                }
            },
            None => None,
        }
    }

    /// The document of a file that was read from disk, whether or not it was written since.
    pub fn read_before(&self, uri: &str) -> (r: Option<Arc<Document>>)
        requires
            self.wf(),
        ensures
            match r {
                Some(document) => {
                    &&& self.remembered().contains_key(uri@)
                    &&& self.remembered()[uri@].document == document
                    &&& document.derived()
                },
                None => !self.remembered().contains_key(uri@),
            },
    {
        match look_up(&self.cache, uri) {
            Some(entry) => {
                assert(self.remembered().contains_key(uri@));
                Some(entry.document)
            },
            None => None,
        }
    }

    /// Keeps the document of a file that was read from disk and last written at `modified`, in place
    /// of an older one. `None`, with nothing changed, where the text is none that a document can
    /// hold.
    pub fn remember(
        &mut self,
        uri: String,
        modified: i128,
        text: String,
        origin: Arc<String>,
        language: &tree_sitter::Language,
        id: u64,
    ) -> (r: Option<Arc<Document>>)
        requires
            old(self).wf(),
        ensures
            final(self).wf(),
            match r {
                Some(document) => {
                    &&& holdable(parsed_alone(*language, text@))
                    &&& document.source() == parsed_alone(*language, text@)
                    &&& document.unanalysed()
                    &&& document.derived()
                    &&& document.commands_defined.origin@ == origin@
                    &&& document.commands_defined.id == id
                    &&& final(self).remembered() == old(self).remembered().insert(
                        uri@,
                        Held { document, modified: Some(modified) },
                    )
                },
                None => {
                    &&& !holdable(parsed_alone(*language, text@))
                    &&& final(self).remembered() == old(self).remembered()
                },
            },
            final(self).documents() == old(self).documents(),
            final(self).vocabulary() == old(self).vocabulary(),
            final(self).version() == old(self).version(),
            final(self).directories() == old(self).directories(),
    {
        match Document::new(text, language, origin, id) {
            Some(document) => {
                let document = Arc::new(document);
                let entry = Held { document: document.clone(), modified: Some(modified) };
                put(&mut self.cache, uri, entry);
                assert forall|other: Seq<char>| #[trigger]
                    self.remembered().contains_key(
                        other,
                    ) implies self.remembered()[other].document.derived() by {
                    if other != uri@ {
                        assert(old(self).remembered().contains_key(other));
                    }
                }
                assert(self.documents() =~= old(self).documents());
                assert(self.wf());
                Some(document)
            },
            None => None,
        }
    }

    /// The URIs of all open documents, each once, in no particular order.
    pub fn open_uris(&self) -> (r: Vec<String>)
        ensures
            names(r@).no_duplicates(),
            names(r@).to_set() == self.documents().dom(),
    {
        keys(&self.open)
    }

    /// Applies changes to an open document, in order. `false`, with nothing changed, where no such
    /// document is open, or where a change leaves a text that a document cannot hold.
    pub fn change(
        &mut self,
        uri: &str,
        changes: &Vec<Change>,
        language: &tree_sitter::Language,
        id: u64,
    ) -> (r: bool)
        requires
            old(self).wf(),
            old(self).documents().contains_key(uri@) ==> all_forward(
                old(self).documents()[uri@].text@,
                changes@,
            ),
        ensures
            final(self).wf(),
            r == (old(self).documents().contains_key(uri@) && after_all(
                *language,
                old(self).documents()[uri@].source(),
                changes@,
            ) is Some),
            !r ==> final(self).documents() == old(self).documents(),
            r ==> {
                let before = old(self).documents()[uri@];
                let now = final(self).documents()[uri@];
                &&& final(self).documents().contains_key(uri@)
                &&& final(self).documents() == old(self).documents().insert(uri@, now)
                &&& after_all(*language, before.source(), changes@) == Some(now.source())
                &&& now.commands_defined.origin@ == before.commands_defined.origin@
                &&& changes@.len() == 0 ==> now == before
                &&& changes@.len() > 0 ==> now.unanalysed() && now.commands_defined.id == id
            },
            final(self).remembered() == old(self).remembered(),
            final(self).vocabulary() == old(self).vocabulary(),
            final(self).version() == old(self).version(),
            final(self).directories() == old(self).directories(),
    {
        match self.document(uri) {
            Some(document) => {
                let ghost before = self.documents()[uri@];
                let mut current = document;
                let mut k: usize = 0;
                while k < changes.len()
                    invariant
                        *self == *old(self),
                        old(self).wf(),
                        before == old(self).documents()[uri@],
                        old(self).documents().contains_key(uri@),
                        k <= changes@.len(),
                        all_forward(before.text@, changes@),
                        after_all(
                            *language,
                            before.source(),
                            changes@.subrange(0, k as int),
                        ) == Some(current.source()),
                        current.derived(),
                        current.commands_defined.origin@ == before.commands_defined.origin@,
                        k == 0 ==> *current == before,
                        k > 0 ==> current.unanalysed() && current.commands_defined.id == id,
                    decreases changes.len() - k,
                {
                    proof {
                        let prefix = changes@.subrange(0, k as int);
                        lemma_after_all_text(*language, before.source(), prefix);
                        assert(forward(changed_all(before.text@, prefix), changes@[k as int]));
                        assert(changes@.subrange(0, k + 1).drop_last() =~= prefix);
                    }
                    match current.changed_by(&changes[k], language, id) {
                        Some(next) => {
                            current = Arc::new(next);
                        },
                        None => {
                            proof {
                                lemma_after_all_stops(*language, before.source(), changes@, k + 1);
                            }
                            return false;
                        },
                    }
                    k = k + 1;
                }
                assert(changes@.subrange(0, k as int) =~= changes@);
                put(&mut self.open, uri.to_string(), Held { document: current, modified: None });
                assert(self.documents() =~= old(self).documents().insert(uri@, *current));
                true
            },
            None => false,
        }
    }

    /// Whether no range of changes to an open document, applied in order, ends before it starts.
    pub fn can_change(&self, uri: &str, changes: &Vec<Change>) -> (r: bool)
        requires
            self.wf(),
        ensures
            r == (self.documents().contains_key(uri@) && all_forward(
                self.documents()[uri@].text@,
                changes@,
            )),
    {
        match self.document(uri) {
            Some(document) => {
                let mut lines = LineIndex::new(document.text.as_str());
                let mut k: usize = 0;
                while k < changes.len()
                    invariant
                        self.documents().contains_key(uri@),
                        self.documents()[uri@] == *document,
                        k <= changes@.len(),
                        lines.wf(),
                        lines.text@ == changed_all(document.text@, changes@.subrange(0, k as int)),
                        forall|j: int|
                            0 <= j < k ==> forward(
                                changed_all(document.text@, #[trigger] changes@.subrange(0, j)),
                                changes@[j],
                            ),
                    decreases changes.len() - k,
                {
                    let ghost prefix = changes@.subrange(0, k as int);
                    assert(changes@.subrange(0, k + 1).drop_last() =~= prefix);
                    match &changes[k].range {
                        Some(range) => {
                            let start = lines.offset_clamped(range.start);
                            let end = lines.offset_clamped(range.end);
                            if start > end {
                                assert(!forward(
                                    changed_all(document.text@, changes@.subrange(0, k as int)),
                                    changes@[k as int],
                                ));
                                return false;
                            }
                            let text = replace_range(
                                lines.text.as_str(),
                                start,
                                end,
                                changes[k].text.as_str(),
                            );
                            lines = LineIndex::new(text.as_str());
                        },
                        None => {
                            lines = LineIndex::new(changes[k].text.as_str());
                        },
                    }
                    k = k + 1;
                }
                true
            },
            None => false,
        }
    }

    /// Takes over what `notes` makes of the music of a document in `scope`, if that differs from the
    /// scope it was last analysed in. The document is the open one, or else the one read from disk;
    /// `false` where there is neither.
    pub fn refresh(&mut self, uri: &str, scope: &Scope, notes: NoteAnalysis) -> (r: bool)
        requires
            old(self).wf(),
            notes.wf(),
        ensures
            final(self).wf(),
            r == (old(self).documents().contains_key(uri@) || old(self).remembered().contains_key(
                uri@,
            )),
            old(self).documents().contains_key(uri@) ==> {
                let now = final(self).documents()[uri@];
                &&& final(self).documents().contains_key(uri@)
                &&& final(self).documents() == old(self).documents().insert(uri@, now)
                &&& refreshes(old(self).documents()[uri@], now, *scope, notes)
                &&& final(self).remembered() == old(self).remembered()
            },
            !old(self).documents().contains_key(uri@) ==> final(self).documents() == old(
                self,
            ).documents(),
            !old(self).documents().contains_key(uri@) && old(self).remembered().contains_key(uri@)
                ==> {
                let before = old(self).remembered()[uri@];
                let now = final(self).remembered()[uri@];
                &&& final(self).remembered().contains_key(uri@)
                &&& final(self).remembered() == old(self).remembered().insert(uri@, now)
                &&& refreshes(*before.document, *now.document, *scope, notes)
                &&& now.modified == before.modified
            },
            !r ==> final(self).remembered() == old(self).remembered(),
            final(self).vocabulary() == old(self).vocabulary(),
            final(self).version() == old(self).version(),
            final(self).directories() == old(self).directories(),
    {
        match self.document(uri) {
            Some(document) => {
                if document.is_current(scope) {
                    assert(self.documents() =~= old(self).documents().insert(uri@, *document));
                    return true;
                }
                let next = document.refreshed(scope, notes);
                self.set_open(uri.to_string(), next);
                true
            },
            None => match look_up(&self.cache, uri) {
                Some(entry) => {
                    assert(self.remembered().contains_key(uri@));
                    if entry.document.is_current(scope) {
                        assert(self.remembered() =~= old(self).remembered().insert(uri@, entry));
                        return true;
                    }
                    let next = entry.document.refreshed(scope, notes);
                    let entry = Held { document: Arc::new(next), modified: entry.modified };
                    put(&mut self.cache, uri.to_string(), entry);
                    true
                },
                None => false,
            },
        }
    }

    /// Takes over the layers of an installation and its version, once: a later call is refused
    /// rather than overwriting the first.
    pub fn load_vocabulary(&mut self, base: Base, version: Option<String>) -> (r: Result<
        (),
        LoadVocabularyError,
    >)
        ensures
            match old(self).vocabulary() {
                Some(loaded) => r == Err::<(), LoadVocabularyError>(
                    LoadVocabularyError::AlreadyLoaded,
                ) && final(self).vocabulary() == Some(loaded),
                None => r is Ok && final(self).vocabulary() == Some(base),
            },
            final(self).version() == match old(self).version() {
                Some(known) => Some(known),
                None => text_in(version),
            },
            final(self).documents() == old(self).documents(),
            final(self).remembered() == old(self).remembered(),
            final(self).directories() == old(self).directories(),
    {
        if self.lilypond_version.is_none() {
            self.lilypond_version = version;
        }
        if self.base.is_some() {
            return Err(LoadVocabularyError::AlreadyLoaded);
        }
        self.base = Some(base);
        Ok(())
    }

    /// The layers loaded from an installation.
    pub fn base(&self) -> (r: Option<&Base>)
        ensures
            match r {
                Some(base) => self.vocabulary() == Some(*base),
                None => self.vocabulary() is None,
            },
    {
        match &self.base {
            Some(base) => Some(base),
            None => None,
        }
    }

    /// The version of the installation, where it is known.
    pub fn lilypond_version(&self) -> (r: Option<&str>)
        ensures
            match r {
                Some(version) => self.version() == Some(version@),
                None => self.version() is None,
            },
    {
        match &self.lilypond_version {
            Some(version) => Some(version.as_str()),
            None => None,
        }
    }

    /// Sets the directories to search for included files, in order, once.
    pub fn set_search_paths(&mut self, paths: Vec<String>)
        ensures
            final(self).directories() == match old(self).directories() {
                Some(known) => Some(known),
                None => Some(names(paths@)),
            },
            final(self).documents() == old(self).documents(),
            final(self).remembered() == old(self).remembered(),
            final(self).vocabulary() == old(self).vocabulary(),
            final(self).version() == old(self).version(),
    {
        if self.search_paths.is_none() {
            self.search_paths = Some(paths);
        }
    }

    /// The directories to search for included files; none before they are set.
    pub fn search_paths(&self) -> (r: Vec<String>)
        ensures
            names(r@) == match self.directories() {
                Some(paths) => paths,
                None => Seq::empty(),
            },
    {
        let mut out: Vec<String> = Vec::new();
        assert(names(out@) =~= Seq::empty());
        match &self.search_paths {
            Some(paths) => {
                let mut k: usize = 0;
                while k < paths.len()
                    invariant
                        k <= paths@.len(),
                        names(out@) == names(paths@).subrange(0, k as int),
                    decreases paths.len() - k,
                {
                    let ghost before = names(out@);
                    out.push(paths[k].clone());
                    assert(names(out@) =~= before.push(paths@[k as int]@));
                    assert(names(out@) =~= names(paths@).subrange(0, k + 1));
                    k = k + 1;
                }
                assert(names(paths@).subrange(0, k as int) =~= names(paths@));
            },
            None => {},
        }
        out
    }
}

/// One file that a document can reach.
#[derive(Debug)]
pub struct File {
    pub uri: String,
    pub document: Arc<Document>,
}

/// One open document, and the files it can reach.
#[derive(Debug)]
pub struct OpenFile {
    pub uri: String,
    pub document: Arc<Document>,
    pub closure: Vec<String>,
}

/// A range in a file.
#[derive(Debug)]
pub struct Location {
    pub uri: String,
    pub range: Range,
}

/// What a [`Location`] says.
pub struct LocationView {
    pub uri: Seq<char>,
    pub range: Range,
}

impl View for Location {
    type V = LocationView;

    open spec fn view(&self) -> LocationView {
        LocationView { uri: self.uri@, range: self.range }
    }
}

pub open spec fn location_views(locations: Seq<Location>) -> Seq<LocationView> {
    locations.map_values(|location: Location| location@)
}

/// Every file's document is well formed.
pub open spec fn files_wf(files: Seq<File>) -> bool {
    forall|k: int| 0 <= k < files.len() ==> (#[trigger] files[k]).document.wf()
}

/// Every open file's document is well formed.
pub open spec fn open_wf(open: Seq<OpenFile>) -> bool {
    forall|k: int| 0 <= k < open.len() ==> (#[trigger] open[k]).document.wf()
}

/// Ranges of one file, as locations.
pub open spec fn located(uri: Seq<char>, ranges: Seq<Range>) -> Seq<LocationView> {
    ranges.map_values(|range: Range| LocationView { uri, range })
}

/// Puts ranges of one file behind `out`, as locations.
fn push_located(out: &mut Vec<Location>, uri: &str, ranges: &Vec<Range>)
    ensures
        location_views(final(out)@) == location_views(old(out)@) + located(uri@, ranges@),
{
    let ghost before = location_views(out@);
    let mut k: usize = 0;
    assert(before + located(uri@, ranges@.subrange(0, 0)) =~= before);
    while k < ranges.len()
        invariant
            k <= ranges@.len(),
            location_views(out@) == before + located(uri@, ranges@.subrange(0, k as int)),
        decreases ranges.len() - k,
    {
        let ghost last = location_views(out@);
        let location = Location { uri: uri.to_string(), range: ranges[k] };
        out.push(location);
        assert(location_views(out@) =~= last.push(location@));
        assert(location_views(out@) =~= before + located(uri@, ranges@.subrange(0, k + 1)));
        k = k + 1;
    }
    assert(ranges@.subrange(0, k as int) =~= ranges@);
}

/// Every place that the first `n` files bind a name.
pub open spec fn all_definitions(files: Seq<File>, name: Seq<char>, n: int) -> Seq<LocationView>
    decreases n,
{
    if n <= 0 {
        Seq::empty()
    } else {
        let file = files[n - 1];
        all_definitions(files, name, n - 1) + located(
            file.uri@,
            ranges_of(file.document.bytes(), defined_at(*file.document, name)),
        )
    }
}

/// Every place `name` is bound in `files`, and not only the definition in effect at some point:
/// renaming one definition and leaving another alone would break the references that mean it.
pub fn definitions_of(files: &Vec<File>, name: &str) -> (r: Vec<Location>)
    requires
        files_wf(files@),
    ensures
        location_views(r@) == all_definitions(files@, name@, files@.len() as int),
{
    let mut out: Vec<Location> = Vec::new();
    assert(location_views(out@) =~= Seq::empty());
    let mut k: usize = 0;
    while k < files.len()
        invariant
            files_wf(files@),
            k <= files@.len(),
            location_views(out@) == all_definitions(files@, name@, k as int),
        decreases files.len() - k,
    {
        let file = &files[k];
        assert(files@[k as int].document.wf());
        let ranges = file.document.definition_ranges(name);
        push_located(&mut out, file.uri.as_str(), &ranges);
        k = k + 1;
    }
    out
}

/// Where one file's range is, if it has one.
pub open spec fn located_if(uri: Seq<char>, range: Option<Range>) -> Seq<LocationView> {
    match range {
        Some(range) => seq![LocationView { uri, range }],
        None => Seq::empty(),
    }
}

fn push_located_if(out: &mut Vec<Location>, uri: &str, range: Option<Range>)
    ensures
        location_views(final(out)@) == location_views(old(out)@) + located_if(uri@, range),
{
    let ghost before = location_views(out@);
    match range {
        Some(range) => {
            let location = Location { uri: uri.to_string(), range };
            out.push(location);
            assert(location_views(out@) =~= before + seq![location@]);
        },
        None => {
            assert(before + Seq::<LocationView>::empty() =~= before);
        },
    }
}

/// The definition of a name in effect in a document.
pub open spec fn effective(document: Document, name: Seq<char>, at: Option<usize>) -> Option<Range> {
    match in_effect(defined_at(document, name), at) {
        Some(span) => Some(range_between(document.bytes(), span)),
        None => None,
    }
}

/// What a reference at `at` in the file `uri` means, in each of the first `n` files.
pub open spec fn effective_definitions(
    files: Seq<File>,
    name: Seq<char>,
    uri: Seq<char>,
    at: Option<usize>,
    n: int,
) -> Seq<LocationView>
    decreases n,
{
    if n <= 0 {
        Seq::empty()
    } else {
        let file = files[n - 1];
        effective_definitions(files, name, uri, at, n - 1) + located_if(
            file.uri@,
            effective(
                *file.document,
                name,
                if file.uri@ == uri {
                    at
                } else {
                    None
                },
            ),
        )
    }
}

/// The definition of `name` that a reference at the offset `at` of the file `uri` means: at most one
/// for each of `files` that defines it. Only the cursor's own file has an offset to go by. Two files
/// that both define the name are a genuine ambiguity, and both are offered.
pub fn definitions_in_effect(files: &Vec<File>, name: &str, uri: &str, at: Option<usize>) -> (r: Vec<
    Location,
>)
    requires
        files_wf(files@),
    ensures
        location_views(r@) == effective_definitions(
            files@,
            name@,
            uri@,
            at,
            files@.len() as int,
        ),
{
    let mut out: Vec<Location> = Vec::new();
    assert(location_views(out@) =~= Seq::empty());
    let mut k: usize = 0;
    while k < files.len()
        invariant
            files_wf(files@),
            k <= files@.len(),
            location_views(out@) == effective_definitions(files@, name@, uri@, at, k as int),
        decreases files.len() - k,
    {
        let file = &files[k];
        assert(files@[k as int].document.wf());
        let here = if same(file.uri.as_str(), uri) {
            at
        } else {
            None
        };
        let range = file.document.definition_in_effect(name, here);
        push_located_if(&mut out, file.uri.as_str(), range);
        k = k + 1;
    }
    out
}

/// Where a document declares a context type.
pub open spec fn type_declared(document: Document, name: Seq<char>) -> Option<Range> {
    match type_among(document.commands_defined.context_types@, name) {
        Some(i) => Some(
            range_between(
                document.bytes(),
                document.commands_defined.context_types@[i].name_span,
            ),
        ),
        None => None,
    }
}

/// Where a document creates a context instance.
pub open spec fn instance_created(document: Document, name: Seq<char>) -> Option<Range> {
    match instance_among(document.commands_defined.context_instances@, name) {
        Some(i) => Some(
            range_between(
                document.bytes(),
                document.commands_defined.context_instances@[i].span,
            ),
        ),
        None => None,
    }
}

/// Where the first `n` files declare a context type.
pub open spec fn declared_in(files: Seq<File>, name: Seq<char>, n: int) -> Seq<LocationView>
    decreases n,
{
    if n <= 0 {
        Seq::empty()
    } else {
        declared_in(files, name, n - 1) + located_if(
            files[n - 1].uri@,
            type_declared(*files[n - 1].document, name),
        )
    }
}

/// Where the first `n` files create a context instance.
pub open spec fn created_in(files: Seq<File>, name: Seq<char>, n: int) -> Seq<LocationView>
    decreases n,
{
    if n <= 0 {
        Seq::empty()
    } else {
        created_in(files, name, n - 1) + located_if(
            files[n - 1].uri@,
            instance_created(*files[n - 1].document, name),
        )
    }
}

/// One location for each of `files` that declares a context type called `name`.
pub fn context_type_definitions(files: &Vec<File>, name: &str) -> (r: Vec<Location>)
    requires
        files_wf(files@),
    ensures
        location_views(r@) == declared_in(files@, name@, files@.len() as int),
{
    let mut out: Vec<Location> = Vec::new();
    assert(location_views(out@) =~= Seq::empty());
    let mut k: usize = 0;
    while k < files.len()
        invariant
            files_wf(files@),
            k <= files@.len(),
            location_views(out@) == declared_in(files@, name@, k as int),
        decreases files.len() - k,
    {
        let file = &files[k];
        assert(files@[k as int].document.wf());
        let range = file.document.context_type_declaration(name);
        push_located_if(&mut out, file.uri.as_str(), range);
        k = k + 1;
    }
    out
}

/// One location for each of `files` that creates a context instance called `name`.
pub fn context_instance_definitions(files: &Vec<File>, name: &str) -> (r: Vec<Location>)
    requires
        files_wf(files@),
    ensures
        location_views(r@) == created_in(files@, name@, files@.len() as int),
{
    let mut out: Vec<Location> = Vec::new();
    assert(location_views(out@) =~= Seq::empty());
    let mut k: usize = 0;
    while k < files.len()
        invariant
            files_wf(files@),
            k <= files@.len(),
            location_views(out@) == created_in(files@, name@, k as int),
        decreases files.len() - k,
    {
        let file = &files[k];
        assert(files@[k as int].document.wf());
        let range = file.document.context_instance_creation(name);
        push_located_if(&mut out, file.uri.as_str(), range);
        k = k + 1;
    }
    out
}

/// What stands under the cursor, as far as navigation cares.
#[derive(Debug)]
pub enum Target {
    /// The path of an included file.
    Path(String),
    /// A context type that a call names.
    ContextType(String),
    /// A context instance that a call names.
    ContextName(String),
    /// A definition or a reference, and where the cursor is.
    Symbol(String, Option<usize>),
    Nothing,
}

/// What a [`Target`] says.
pub enum TargetView {
    Path(Seq<char>),
    ContextType(Seq<char>),
    ContextName(Seq<char>),
    Symbol(Seq<char>, Option<usize>),
    Nothing,
}

impl View for Target {
    type V = TargetView;

    open spec fn view(&self) -> TargetView {
        match self {
            Target::Path(path) => TargetView::Path(path@),
            Target::ContextType(name) => TargetView::ContextType(name@),
            Target::ContextName(name) => TargetView::ContextName(name@),
            Target::Symbol(name, at) => TargetView::Symbol(name@, *at),
            Target::Nothing => TargetView::Nothing,
        }
    }
}

/// The offset of a position.
pub open spec fn offset_at_position(document: Document, position: Position) -> Option<usize> {
    match offset_of(document.bytes(), position) {
        Some(offset) => Some(offset as usize),
        None => None,
    }
}

/// What stands under a position, the path of a file left out: a context type or instance before the
/// ordinary symbol, each from its own namespace.
pub open spec fn named_at(document: Document, position: Position) -> TargetView {
    match context_at(document, position) {
        Some(Arg::ContextType { name, .. }) => TargetView::ContextType(name@),
        Some(Arg::ContextName { name, .. }) => TargetView::ContextName(name@),
        _ => match name_at_position(document, position) {
            Some(name) => TargetView::Symbol(name, offset_at_position(document, position)),
            None => TargetView::Nothing,
        },
    }
}

/// What stands under a position.
pub open spec fn under(document: Document, position: Position) -> TargetView {
    match path_at(document, position) {
        Some(path) => TargetView::Path(path),
        None => named_at(document, position),
    }
}

/// The name under `position`, and which namespace it belongs to.
pub fn name_under(doc: &Document, position: Position) -> (r: Target)
    requires
        doc.wf(),
    ensures
        r@ == named_at(*doc, position),
{
    match doc.context_type_at(position) {
        Some(name) => {
            return Target::ContextType(name.to_string());
        },
        None => {},
    }
    match doc.context_name_at(position) {
        Some(name) => {
            return Target::ContextName(name.to_string());
        },
        None => {},
    }
    match doc.symbol_at(position) {
        Some(name) => {
            let at = doc.line_index.offset_at(position);
            Target::Symbol(name.to_string(), at)
        },
        None => Target::Nothing,
    }
}

/// What stands under `position`: the path of an included file before any name.
pub fn target_at(doc: &Document, position: Position) -> (r: Target)
    requires
        doc.wf(),
    ensures
        r@ == under(*doc, position),
{
    match doc.include_at(position) {
        Some(path) => Target::Path(path.to_string()),
        None => name_under(doc, position),
    }
}

/// Where the definitions of a target are. A path is a file to resolve, and none of these.
pub open spec fn definitions_for(target: TargetView, files: Seq<File>, uri: Seq<char>) -> Seq<
    LocationView,
> {
    let n = files.len() as int;
    match target {
        TargetView::ContextType(name) => declared_in(files, name, n),
        TargetView::ContextName(name) => created_in(files, name, n),
        TargetView::Symbol(name, at) => effective_definitions(files, name, uri, at, n),
        _ => Seq::empty(),
    }
}

/// Go-to-definition for a name of the document `uri`, in the files it can reach.
pub fn goto_definition(target: &Target, files: &Vec<File>, uri: &str) -> (r: Vec<Location>)
    requires
        files_wf(files@),
    ensures
        location_views(r@) == definitions_for(target@, files@, uri@),
{
    match target {
        Target::ContextType(name) => context_type_definitions(files, name.as_str()),
        Target::ContextName(name) => context_instance_definitions(files, name.as_str()),
        Target::Symbol(name, at) => definitions_in_effect(files, name.as_str(), uri, *at),
        _ => {
            let out: Vec<Location> = Vec::new();
            assert(location_views(out@) =~= Seq::empty());
            out
        },
    }
}

/// Whether a list of files holds one that a list of locations lies in.
pub open spec fn sees(closure: Seq<Seq<char>>, anchors: Seq<Seq<char>>) -> bool {
    exists|k: int| 0 <= k < closure.len() && anchors.contains(#[trigger] closure[k])
}

fn can_see(closure: &Vec<String>, anchors: &Vec<String>) -> (r: bool)
    ensures
        r == sees(names(closure@), names(anchors@)),
{
    let mut k: usize = 0;
    while k < closure.len()
        invariant
            k <= closure@.len(),
            forall|j: int|
                0 <= j < k ==> !names(anchors@).contains(#[trigger] names(closure@)[j]),
        decreases closure.len() - k,
    {
        if holds_name(anchors, closure[k].as_str()) {
            assert(names(closure@)[k as int] == closure@[k as int]@);
            return true;
        }
        assert(names(closure@)[k as int] == closure@[k as int]@);
        k = k + 1;
    }
    false
}

/// The files that anchor a search: those the definitions are in or, where there is none, the
/// cursor's own.
pub open spec fn anchors_of(definitions: Seq<LocationView>, uri: Seq<char>) -> Seq<Seq<char>> {
    if definitions.len() == 0 {
        seq![uri]
    } else {
        definitions.map_values(|location: LocationView| location.uri)
    }
}

fn anchors(definitions: &Vec<Location>, uri: &str) -> (r: Vec<String>)
    ensures
        names(r@) == anchors_of(location_views(definitions@), uri@),
{
    let mut out: Vec<String> = Vec::new();
    if definitions.len() == 0 {
        out.push(uri.to_string());
        assert(names(out@) =~= seq![uri@]);
        return out;
    }
    let ghost views = location_views(definitions@);
    let mut k: usize = 0;
    while k < definitions.len()
        invariant
            k <= definitions@.len(),
            views == location_views(definitions@),
            names(out@) == views.subrange(0, k as int).map_values(
                |location: LocationView| location.uri,
            ),
        decreases definitions.len() - k,
    {
        let ghost before = names(out@);
        out.push(definitions[k].uri.clone());
        assert(names(out@) =~= before.push(definitions@[k as int].uri@));
        assert(views[k as int] == definitions@[k as int]@);
        assert(names(out@) =~= views.subrange(0, k + 1).map_values(
            |location: LocationView| location.uri,
        ));
        k = k + 1;
    }
    assert(views.subrange(0, k as int) =~= views);
    out
}

/// Where a document refers to what a target names.
pub open spec fn references_in(document: Document, target: TargetView) -> Seq<Range> {
    let uses = uses_of(document);
    match target {
        TargetView::ContextType(name) => ranges_of(
            document.bytes(),
            type_uses(uses, name, uses.len() as int),
        ),
        TargetView::ContextName(name) => ranges_of(
            document.bytes(),
            instance_uses(document.bytes(), uses, name, uses.len() as int),
        ),
        TargetView::Symbol(name, _) => ranges_of(
            document.bytes(),
            bears(document.references@, name, document.references@.len() as int),
        ),
        _ => Seq::empty(),
    }
}

fn reference_ranges_of(doc: &Document, target: &Target) -> (r: Vec<Range>)
    requires
        doc.wf(),
    ensures
        r@ == references_in(*doc, target@),
{
    match target {
        Target::ContextType(name) => doc.context_type_reference_ranges(name.as_str()),
        Target::ContextName(name) => doc.context_instance_reference_ranges(name.as_str()),
        Target::Symbol(name, _) => doc.reference_ranges(name.as_str()),
        _ => Vec::new(),
    }
}

/// The references in those of the first `n` open documents that can see an anchor.
pub open spec fn references_from(
    open: Seq<OpenFile>,
    anchors: Seq<Seq<char>>,
    target: TargetView,
    n: int,
) -> Seq<LocationView>
    decreases n,
{
    if n <= 0 {
        Seq::empty()
    } else {
        let before = references_from(open, anchors, target, n - 1);
        let file = open[n - 1];
        if sees(names(file.closure@), anchors) {
            before + located(file.uri@, references_in(*file.document, target))
        } else {
            before
        }
    }
}

/// Whether a location is a reference in an open document that can see an anchor.
pub open spec fn referred_to_in(
    location: LocationView,
    open: Seq<OpenFile>,
    anchors: Seq<Seq<char>>,
    target: TargetView,
) -> bool {
    exists|k: int|
        0 <= k < open.len() && location.uri == (#[trigger] open[k]).uri@ && sees(
            names(open[k].closure@),
            anchors,
        ) && references_in(*open[k].document, target).contains(location.range)
}

/// References are found only in open documents that can see a file which defines the name, so that
/// unrelated files reusing a spelling are never taken for one another.
pub proof fn law_references_come_from_documents_that_see_the_name(
    open: Seq<OpenFile>,
    anchors: Seq<Seq<char>>,
    target: TargetView,
    n: int,
    i: int,
)
    requires
        0 <= n <= open.len(),
        0 <= i < references_from(open, anchors, target, n).len(),
    ensures
        referred_to_in(references_from(open, anchors, target, n)[i], open, anchors, target),
    decreases n,
{
    if n > 0 {
        let before = references_from(open, anchors, target, n - 1);
        if i < before.len() {
            law_references_come_from_documents_that_see_the_name(open, anchors, target, n - 1, i);
        } else {
            let found = references_from(open, anchors, target, n)[i];
            let at = i - before.len();
            assert(sees(names(open[n - 1].closure@), anchors));
            assert(found.range == references_in(*open[n - 1].document, target)[at]);
            assert(found.uri == open[n - 1].uri@);
        }
    }
}

/// Every place that defines what a target names, as far as references go.
pub open spec fn declarations_for(target: TargetView, files: Seq<File>) -> Seq<LocationView> {
    let n = files.len() as int;
    match target {
        TargetView::ContextType(name) => declared_in(files, name, n),
        TargetView::ContextName(name) => created_in(files, name, n),
        TargetView::Symbol(name, _) => all_definitions(files, name, n),
        _ => Seq::empty(),
    }
}

/// What find-references answers: the references and, where they are asked for, the definitions.
pub open spec fn occurrences(
    target: TargetView,
    files: Seq<File>,
    open: Seq<OpenFile>,
    uri: Seq<char>,
    include_declaration: bool,
) -> Seq<LocationView> {
    match target {
        TargetView::Nothing => Seq::empty(),
        TargetView::Path(_) => Seq::empty(),
        _ => {
            let definitions = declarations_for(target, files);
            references_from(open, anchors_of(definitions, uri), target, open.len() as int) + (
            if include_declaration {
                definitions
            } else {
                Seq::empty()
            })
        },
    }
}

/// Moves everything of `more` behind `out`.
fn append_locations(out: &mut Vec<Location>, more: Vec<Location>)
    ensures
        location_views(final(out)@) == location_views(old(out)@) + location_views(more@),
{
    let ghost before = location_views(out@);
    let ghost all = more@;
    assert(before =~= before + location_views(all.subrange(0, 0)));
    for one in it: more
        invariant
            it.seq() == all,
            location_views(out@) == before + location_views(all.subrange(0, it.index() as int)),
    {
        let ghost k = it.index() as int;
        let ghost last = location_views(out@);
        out.push(one);
        assert(location_views(out@) =~= last.push(one@));
        assert(location_views(all.subrange(0, k + 1)) =~= location_views(all.subrange(0, k)).push(
            one@,
        ));
        assert(location_views(out@) =~= before + location_views(all.subrange(0, k + 1)));
    }
    assert(all.subrange(0, all.len() as int) =~= all);
}

/// The references to a name whose definitions are known: those in every open document that can see
/// one of the definitions, and the definitions themselves where they are asked for.
pub fn gather_references(
    target: &Target,
    definitions: Vec<Location>,
    open: &Vec<OpenFile>,
    uri: &str,
    include_declaration: bool,
) -> (r: Vec<Location>)
    requires
        open_wf(open@),
    ensures
        location_views(r@) == references_from(
            open@,
            anchors_of(location_views(definitions@), uri@),
            target@,
            open@.len() as int,
        ) + (if include_declaration {
            location_views(definitions@)
        } else {
            Seq::empty()
        }),
{
    let wanted = anchors(&definitions, uri);
    let ghost anchored = anchors_of(location_views(definitions@), uri@);
    let mut out: Vec<Location> = Vec::new();
    assert(location_views(out@) =~= Seq::empty());
    let mut k: usize = 0;
    while k < open.len()
        invariant
            open_wf(open@),
            k <= open@.len(),
            names(wanted@) == anchored,
            location_views(out@) == references_from(open@, anchored, target@, k as int),
        decreases open.len() - k,
    {
        let file = &open[k];
        assert(open@[k as int].document.wf());
        if can_see(&file.closure, &wanted) {
            let ranges = reference_ranges_of(&file.document, target);
            push_located(&mut out, file.uri.as_str(), &ranges);
        }
        k = k + 1;
    }
    let ghost found = location_views(out@);
    if include_declaration {
        append_locations(&mut out, definitions);
    } else {
        assert(found + Seq::<LocationView>::empty() =~= found);
    }
    out
}

/// Every place that defines what a target names.
fn declarations(target: &Target, files: &Vec<File>) -> (r: Vec<Location>)
    requires
        files_wf(files@),
    ensures
        location_views(r@) == declarations_for(target@, files@),
{
    match target {
        Target::ContextType(name) => context_type_definitions(files, name.as_str()),
        Target::ContextName(name) => context_instance_definitions(files, name.as_str()),
        Target::Symbol(name, _) => definitions_of(files, name.as_str()),
        _ => {
            let out: Vec<Location> = Vec::new();
            assert(location_views(out@) =~= Seq::empty());
            out
        },
    }
}

/// Find-references for a name of the document `uri`: `files` are those the document can reach, and
/// `open` the documents to look in. A path is nobody's symbol, and has none.
pub fn references(
    target: &Target,
    files: &Vec<File>,
    open: &Vec<OpenFile>,
    uri: &str,
    include_declaration: bool,
) -> (r: Vec<Location>)
    requires
        files_wf(files@),
        open_wf(open@),
    ensures
        location_views(r@) == occurrences(target@, files@, open@, uri@, include_declaration),
{
    if matches!(target, Target::Nothing | Target::Path(_)) {
        let out: Vec<Location> = Vec::new();
        assert(location_views(out@) =~= Seq::empty());
        return out;
    }
    let definitions = declarations(target, files);
    gather_references(target, definitions, open, uri, include_declaration)
}

#[derive(Debug, Clone, Copy, PartialEq, Eq, Structural)]
pub enum HighlightKind {
    Text,
    Read,
    Write,
}

/// A range to highlight.
#[derive(Debug, Clone, Copy, PartialEq, Eq, Structural)]
pub struct Highlight {
    pub range: Range,
    pub kind: HighlightKind,
}

pub open spec fn highlighted(ranges: Seq<Range>, kind: HighlightKind) -> Seq<Highlight> {
    ranges.map_values(|range: Range| Highlight { range, kind })
}

pub open spec fn range_if(range: Option<Range>) -> Seq<Range> {
    match range {
        Some(range) => seq![range],
        None => Seq::empty(),
    }
}

/// Where a document defines what a target names.
pub open spec fn definitions_in(document: Document, target: TargetView) -> Seq<Range> {
    match target {
        TargetView::ContextType(name) => range_if(type_declared(document, name)),
        TargetView::ContextName(name) => range_if(instance_created(document, name)),
        TargetView::Symbol(name, _) => ranges_of(document.bytes(), defined_at(document, name)),
        _ => Seq::empty(),
    }
}

/// What to highlight for a position: a bracket and the one it goes with, or every definition and
/// reference of the name there.
pub open spec fn highlights_at(document: Document, position: Position) -> Seq<Highlight> {
    match brackets_at(document, position) {
        Some((one, other)) => highlighted(seq![one, other], HighlightKind::Text),
        None => {
            let target = named_at(document, position);
            highlighted(definitions_in(document, target), HighlightKind::Write) + highlighted(
                references_in(document, target),
                HighlightKind::Read,
            )
        },
    }
}

fn push_highlights(out: &mut Vec<Highlight>, ranges: &Vec<Range>, kind: HighlightKind)
    ensures
        final(out)@ == old(out)@ + highlighted(ranges@, kind),
{
    let ghost before = out@;
    let mut k: usize = 0;
    assert(before + highlighted(ranges@.subrange(0, 0), kind) =~= before);
    while k < ranges.len()
        invariant
            k <= ranges@.len(),
            out@ == before + highlighted(ranges@.subrange(0, k as int), kind),
        decreases ranges.len() - k,
    {
        out.push(Highlight { range: ranges[k], kind });
        assert(out@ =~= before + highlighted(ranges@.subrange(0, k + 1), kind));
        k = k + 1;
    }
    assert(ranges@.subrange(0, k as int) =~= ranges@);
}

fn one_range(range: Option<Range>) -> (r: Vec<Range>)
    ensures
        r@ == range_if(range),
{
    let mut out: Vec<Range> = Vec::new();
    match range {
        Some(range) => {
            out.push(range);
        },
        None => {},
    }
    assert(out@ =~= range_if(range));
    out
}

/// What to highlight for `position`, within the document: the bracket there and the one it goes
/// with, or all definitions and references of the name there.
pub fn document_highlights(doc: &Document, position: Position) -> (r: Vec<Highlight>)
    requires
        doc.wf(),
    ensures
        r@ == highlights_at(*doc, position),
{
    let mut out: Vec<Highlight> = Vec::new();
    match doc.bracket_at(position) {
        Some((one, other)) => {
            out.push(Highlight { range: one, kind: HighlightKind::Text });
            out.push(Highlight { range: other, kind: HighlightKind::Text });
            assert(out@ =~= highlighted(seq![one, other], HighlightKind::Text));
            return out;
        },
        None => {},
    }
    let target = name_under(doc, position);
    let written = match &target {
        Target::ContextType(name) => one_range(doc.context_type_declaration(name.as_str())),
        Target::ContextName(name) => one_range(doc.context_instance_creation(name.as_str())),
        Target::Symbol(name, _) => doc.definition_ranges(name.as_str()),
        _ => Vec::new(),
    };
    assert(written@ =~= definitions_in(*doc, target@));
    let read = reference_ranges_of(doc, &target);
    push_highlights(&mut out, &written, HighlightKind::Write);
    push_highlights(&mut out, &read, HighlightKind::Read);
    assert(out@ =~= highlights_at(*doc, position));
    out
}

/// An edit to one file.
#[derive(Debug)]
pub struct FileEdit {
    pub uri: String,
    pub edit: TextEdit,
}

/// What a [`FileEdit`] says.
pub struct FileEditView {
    pub uri: Seq<char>,
    pub edit: EditView,
}

impl View for FileEdit {
    type V = FileEditView;

    open spec fn view(&self) -> FileEditView {
        FileEditView { uri: self.uri@, edit: self.edit@ }
    }
}

pub open spec fn file_edit_views(edits: Seq<FileEdit>) -> Seq<FileEditView> {
    edits.map_values(|edit: FileEdit| edit@)
}

/// Replacing each of a list of places by the same text.
pub open spec fn rewritten(locations: Seq<LocationView>, text: Seq<char>) -> Seq<FileEditView> {
    locations.map_values(
        |location: LocationView|
            FileEditView {
                uri: location.uri,
                edit: EditView { range: location.range, new_text: text },
            },
    )
}

/// What renaming a symbol changes: the name at each definition, and the name behind a backslash at
/// each reference that can see one. None where the files define no such symbol.
pub open spec fn renamed(
    name: Seq<char>,
    new_name: Seq<char>,
    files: Seq<File>,
    open: Seq<OpenFile>,
    uri: Seq<char>,
) -> Option<Seq<FileEditView>> {
    let definitions = all_definitions(files, name, files.len() as int);
    if definitions.len() == 0 {
        None
    } else {
        Some(
            rewritten(definitions, new_name) + rewritten(
                references_from(
                    open,
                    anchors_of(definitions, uri),
                    TargetView::Symbol(name, None),
                    open.len() as int,
                ),
                "\\"@ + new_name,
            ),
        )
    }
}

fn push_rewritten(out: &mut Vec<FileEdit>, locations: &Vec<Location>, text: &str)
    ensures
        file_edit_views(final(out)@) == file_edit_views(old(out)@) + rewritten(
            location_views(locations@),
            text@,
        ),
{
    let ghost before = file_edit_views(out@);
    let ghost views = location_views(locations@);
    let mut k: usize = 0;
    assert(before + rewritten(views.subrange(0, 0), text@) =~= before);
    while k < locations.len()
        invariant
            k <= locations@.len(),
            views == location_views(locations@),
            file_edit_views(out@) == before + rewritten(views.subrange(0, k as int), text@),
        decreases locations.len() - k,
    {
        let ghost last = file_edit_views(out@);
        let edit = FileEdit {
            uri: locations[k].uri.clone(),
            edit: TextEdit { range: locations[k].range, new_text: text.to_string() },
        };
        out.push(edit);
        assert(file_edit_views(out@) =~= last.push(edit@));
        assert(views[k as int] == locations@[k as int]@);
        assert(file_edit_views(out@) =~= before + rewritten(views.subrange(0, k + 1), text@));
        k = k + 1;
    }
    assert(views.subrange(0, k as int) =~= views);
}

/// Renames a symbol of the document `uri`: every definition in the files it can reach, and every
/// reference in the open documents that can see one. `None` where it has no definition there, as a
/// built-in command has none: renaming that would mean nothing.
pub fn rename(
    name: &str,
    new_name: &str,
    files: &Vec<File>,
    open: &Vec<OpenFile>,
    uri: &str,
) -> (r: Option<Vec<FileEdit>>)
    requires
        files_wf(files@),
        open_wf(open@),
    ensures
        match r {
            Some(edits) => renamed(name@, new_name@, files@, open@, uri@) == Some(
                file_edit_views(edits@),
            ),
            None => renamed(name@, new_name@, files@, open@, uri@) is None,
        },
{
    let definitions = definitions_of(files, name);
    if definitions.len() == 0 {
        assert(all_definitions(files@, name@, files@.len() as int).len() == 0);
        return None;
    }
    let ghost defined = location_views(definitions@);
    assert(defined.len() == definitions@.len());
    let mut out: Vec<FileEdit> = Vec::new();
    assert(file_edit_views(out@) =~= Seq::empty());
    push_rewritten(&mut out, &definitions, new_name);
    assert(file_edit_views(out@) =~= rewritten(defined, new_name@));
    let target = Target::Symbol(name.to_string(), None);
    let found = gather_references(&target, definitions, open, uri, false);
    let ghost referred = references_from(
        open@,
        anchors_of(defined, uri@),
        TargetView::Symbol(name@, None),
        open@.len() as int,
    );
    assert(location_views(found@) =~= referred);
    let mut escaped = "\\".to_string();
    escaped.append(new_name);
    push_rewritten(&mut out, &found, escaped.as_str());
    Some(out)
}

/// The place that an edit changes.
pub open spec fn places(edits: Seq<FileEditView>) -> Seq<LocationView> {
    edits.map_values(
        |edit: FileEditView| LocationView { uri: edit.uri, range: edit.edit.range },
    )
}

/// Renaming a symbol changes exactly the places that find-references shows with its definitions.
pub proof fn law_rename_changes_what_references_shows(
    name: Seq<char>,
    new_name: Seq<char>,
    files: Seq<File>,
    open: Seq<OpenFile>,
    uri: Seq<char>,
    at: Option<usize>,
)
    requires
        renamed(name, new_name, files, open, uri) is Some,
    ensures
        ({
            let definitions = all_definitions(files, name, files.len() as int);
            let references = occurrences(
                TargetView::Symbol(name, at),
                files,
                open,
                uri,
                false,
            );
            &&& places(renamed(name, new_name, files, open, uri)->0) == definitions + references
            &&& occurrences(TargetView::Symbol(name, at), files, open, uri, true) == references
                + definitions
        }),
{
    let definitions = all_definitions(files, name, files.len() as int);
    let anchors = anchors_of(definitions, uri);
    let n = open.len() as int;
    lemma_offset_is_no_matter(open, anchors, name, at, n);
    let found = references_from(open, anchors, TargetView::Symbol(name, at), n);
    assert(found + Seq::<LocationView>::empty() =~= found);
    assert(places(renamed(name, new_name, files, open, uri)->0) =~= definitions + found);
}

proof fn lemma_offset_is_no_matter(
    open: Seq<OpenFile>,
    anchors: Seq<Seq<char>>,
    name: Seq<char>,
    at: Option<usize>,
    n: int,
)
    ensures
        references_from(open, anchors, TargetView::Symbol(name, at), n) == references_from(
            open,
            anchors,
            TargetView::Symbol(name, None),
            n,
        ),
    decreases n,
{
    if n > 0 {
        lemma_offset_is_no_matter(open, anchors, name, at, n - 1);
    }
}

/// The layers of files, in order.
pub open spec fn layers_of(files: Seq<File>) -> Seq<Arc<Layer>> {
    files.map_values(|file: File| file.document.commands_defined)
}

/// The scope of a document: the definitions of every file it can reach, nearest first, over what
/// every document shares.
pub fn scope_for(base: &Base, files: &Vec<File>) -> (r: Scope)
    ensures
        r.layers@ == stacked(*base, layers_of(files@)),
        r.note_names@ == base.note_names@,
{
    let mut layers: Vec<Arc<Layer>> = Vec::new();
    let mut k: usize = 0;
    while k < files.len()
        invariant
            k <= files@.len(),
            layers@ == layers_of(files@.subrange(0, k as int)),
        decreases files.len() - k,
    {
        layers.push(files[k].document.commands_defined.clone());
        assert(layers@ =~= layers_of(files@.subrange(0, k + 1)));
        k = k + 1;
    }
    assert(files@.subrange(0, k as int) =~= files@);
    base.for_document(&layers)
}

/// What is wrong with an open document: always what its own text shows and, where the vocabulary has
/// been loaded, every reference that `known` does not know.
pub fn diagnostics(doc: &Document, known: Option<&Scope>) -> (r: Vec<Diagnostic>)
    requires
        doc.wf(),
    ensures
        diagnostic_views(r@) == wrong_with(*doc) + (match known {
            Some(scope) => undefined_among(
                doc.references@,
                doc.bytes(),
                *scope,
                doc.references@.len() as int,
            ),
            None => Seq::empty(),
        }),
{
    let mut out = doc.diagnostics();
    let ghost own = diagnostic_views(out@);
    match known {
        Some(scope) => {
            let more = doc.undefined_reference_diagnostics(scope);
            crate::diagnostics::append_all(&mut out, more);
        },
        None => {
            assert(own + Seq::<DiagnosticView>::empty() =~= own);
        },
    }
    out
}

/// Which of a list of candidates exist.
pub open spec fn existing(exists: Seq<bool>) -> spec_fn(int) -> bool {
    |k: int| exists[k]
}

/// Which of the candidates for an included file it is, given which of them exist: the first that
/// does or, where none does, the first, so that a file not yet written has a sensible place.
pub fn resolve_include(exists: &Vec<bool>) -> (r: usize)
    requires
        exists@.len() > 0,
    ensures
        r < exists@.len(),
        r == match first_from(0, exists@.len() as int, existing(exists@)) {
            Some(k) => k,
            None => 0,
        },
{
    let ghost fits = existing(exists@);
    let mut k: usize = 0;
    while k < exists.len()
        invariant
            exists@.len() > 0,
            k <= exists@.len(),
            fits == existing(exists@),
            first_from(0, exists@.len() as int, fits) == first_from(
                k as int,
                exists@.len() as int,
                fits,
            ),
        decreases exists.len() - k,
    {
        if exists[k] {
            return k;
        }
        k = k + 1;
    }
    0
}

} // verus!
