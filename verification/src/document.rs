//! Per-document analysis: the symbols a source defines and refers to, its diagnostics, and the
//! answers to questions about a position in it.
use vstd::prelude::*;
use vstd::utf8::*;
use std::sync::Arc;
use crate::command::calls::Commands;
use crate::command::definition::{Binding, answers, layer};
use crate::command::scheme::{BindingView, are_bindings, is_binding};
use crate::context::{declared_types, created_instances, instance_views, read, read_instances, type_views};
use crate::grammar::{
    LONGEST_TEXT, TreeEdit, edit_tree, edited_of, fits, is_of_language, is_tree_of, language_of,
    parse_after, parse_of, point_at, point_of, readable, tree_rows,
};
use crate::line_struct::{LineIndex, Span, lemma_offset_boundary, offset_of};
use crate::notes::{Event, Problem, in_order};
use crate::protocol::{Position, Range};
use crate::scope::{fingerprint, layer_ids};
use crate::symbols::{
    SymbolView, bindings_of, extract, include_views, includes, merge_bindings, references,
    symbol_views,
};
use crate::syntax::SyntaxTree;
use crate::text::{lemma_encode_concat, lemma_piece_bytes, piece, replace_range, replaced};
use crate::vocabulary::{Layer, Scope};

verus! {

/// A named occurrence in the source: either a definition (`foo = ...`) or a reference (`\foo`).
#[derive(Debug)]
pub struct Symbol {
    pub name: String,
    pub span: Span,
}

/// An `\include "path"` directive. `span` covers the quoted string.
#[derive(Debug)]
pub struct Include {
    pub path: String,
    pub span: Span,
}

/// What the note analysis makes of a document.
#[derive(Debug)]
pub struct NoteAnalysis {
    pub events: Vec<Event>,
    pub commands: Commands,
    pub problems: Vec<Problem>,
}

impl NoteAnalysis {
    /// Events and command calls are in source order, and no event reaches into the next.
    pub open spec fn wf(self) -> bool {
        in_order(self.events@) && self.commands.wf()
    }
}

/// A text and what the parser made of it.
pub struct Source {
    pub text: Seq<char>,
    pub parsed: Option<tree_sitter::Tree>,
}

/// Whether a text has a tree that a document can hold.
pub open spec fn holdable(source: Source) -> bool {
    readable(source.text, source.parsed)
}

/// A text parsed on its own.
pub open spec fn parsed_alone(language: tree_sitter::Language, text: Seq<char>) -> Source {
    Source { text, parsed: parse_of(language, text, None) }
}

/// An analysed document.
#[derive(Debug)]
pub struct Document {
    pub text: String,
    pub tree: SyntaxTree,
    /// What the parser made of the text, where it was parsed here: an edit is parsed against it.
    pub parsed: Option<tree_sitter::Tree>,
    pub line_index: LineIndex,
    /// Every definition, in source order.
    pub definitions: Vec<Symbol>,
    pub references: Vec<Symbol>,
    pub includes: Vec<Include>,
    /// What this file defines, ready to be stacked into the scope of every document that can see
    /// it.
    pub commands_defined: Arc<Layer>,
    pub notes: NoteAnalysis,
    /// The layers the notes were analysed in.
    pub analysed_in: Vec<u64>,
}

impl Document {
    pub open spec fn bytes(self) -> Seq<u8> {
        encode_utf8(self.text@)
    }

    pub open spec fn events(self) -> Seq<Event> {
        self.notes.events@
    }

    pub open spec fn calls(self) -> Seq<crate::command::CommandCall> {
        self.notes.commands.calls@
    }

    pub open spec fn nodes(self) -> Seq<crate::syntax::Node> {
        self.tree.nodes@
    }

    /// The text and what the parser made of it.
    pub open spec fn source(self) -> Source {
        Source { text: self.text@, parsed: self.parsed }
    }

    pub open spec fn wf(self) -> bool {
        &&& self.tree.wf()
        &&& self.parsed is Some ==> holdable(self.source()) && is_tree_of(
            self.tree,
            tree_rows(self.parsed->0),
        )
        &&& self.line_index.wf()
        &&& self.line_index.text@ == self.text@
        &&& self.notes.wf()
    }
}

/// The names and places of bindings.
pub open spec fn names_of(bindings: Seq<BindingView>) -> Seq<SymbolView> {
    bindings.map_values(|binding: BindingView| SymbolView { name: binding.name, span: binding.span })
}

/// Whether a layer holds what bindings define: for each name its last definition, with the earlier
/// ones hanging off it.
pub open spec fn defines(layer: Layer, bindings: Seq<BindingView>, source: Seq<char>) -> bool {
    &&& layer.wf()
    &&& exists|bound: Seq<Binding>| #[trigger]
        are_bindings(bound, bindings) && forall|name: Seq<char>| #[trigger]
            answers(layer.lookup(name), bound, name, source)
}

impl Document {
    /// Everything in the document that is derived from its text and tree agrees with them.
    pub open spec fn derived(self) -> bool {
        let n = self.nodes().len() as int;
        &&& self.wf()
        &&& symbol_views(self.definitions@) == names_of(bindings_of(self.nodes(), self.text@))
        &&& symbol_views(self.references@) == references(self.nodes(), self.text@, n)
        &&& include_views(self.includes@) == includes(self.nodes(), self.text@, n)
        &&& defines(*self.commands_defined, bindings_of(self.nodes(), self.text@), self.text@)
        &&& type_views(self.commands_defined.context_types@) == declared_types(
            self.nodes(),
            self.text@,
            n,
        )
        &&& instance_views(self.commands_defined.context_instances@) == created_instances(
            self.nodes(),
            self.text@,
            n,
        )
    }

    /// Whether nothing is known of the document's music yet.
    pub open spec fn unanalysed(self) -> bool {
        &&& self.events().len() == 0
        &&& self.calls().len() == 0
        &&& self.notes.problems@.len() == 0
        &&& self.analysed_in@.len() == 0
    }
}

/// The names and places that bindings give.
fn symbols_of(bindings: &Vec<Binding>, Ghost(views): Ghost<Seq<BindingView>>) -> (r: Vec<Symbol>)
    requires
        are_bindings(bindings@, views),
    ensures
        symbol_views(r@) == names_of(views),
{
    let mut out: Vec<Symbol> = Vec::new();
    let mut k: usize = 0;
    while k < bindings.len()
        invariant
            k <= bindings@.len(),
            are_bindings(bindings@, views),
            symbol_views(out@) == names_of(views.subrange(0, k as int)),
        decreases bindings.len() - k,
    {
        assert(is_binding(bindings@[k as int], views[k as int]));
        let ghost before = symbol_views(out@);
        let symbol = Symbol { name: bindings[k].name.clone(), span: bindings[k].span };
        out.push(symbol);
        assert(symbol_views(out@) =~= before.push(symbol@));
        assert(names_of(views.subrange(0, k + 1)) =~= names_of(views.subrange(0, k as int)).push(
            symbol@,
        ));
        k = k + 1;
    }
    assert(views.subrange(0, k as int) =~= views);
    out
}

/// One change to the text of a document: what to write in a range, or the whole new text.
#[derive(Debug)]
pub struct Change {
    pub range: Option<Range>,
    pub text: String,
}

/// The offset of a position, or the end of the text where the position lies outside it.
pub open spec fn clamped(bytes: Seq<u8>, position: Position) -> int {
    match offset_of(bytes, position) {
        Some(offset) => offset,
        None => bytes.len() as int,
    }
}

/// The text that a change leaves.
pub open spec fn changed(text: Seq<char>, change: Change) -> Seq<char> {
    match change.range {
        Some(range) => replaced(
            text,
            clamped(encode_utf8(text), range.start),
            clamped(encode_utf8(text), range.end),
            change.text@,
        ),
        None => change.text@,
    }
}

/// Whether a change's range does not end before it starts.
pub open spec fn forward(text: Seq<char>, change: Change) -> bool {
    change.range matches Some(range) ==> clamped(encode_utf8(text), range.start) <= clamped(
        encode_utf8(text),
        range.end,
    )
}

/// What a tree is told of a change that writes `with` in a range of a text.
pub open spec fn edit_of(text: Seq<char>, range: Range, with: Seq<char>) -> TreeEdit {
    let bytes = encode_utf8(text);
    let start = clamped(bytes, range.start);
    let old_end = clamped(bytes, range.end);
    let new_end = start + encode_utf8(with).len();
    TreeEdit {
        start_byte: start as usize,
        old_end_byte: old_end as usize,
        new_end_byte: new_end as usize,
        start_position: point_of(bytes, start),
        old_end_position: point_of(bytes, old_end),
        new_end_position: point_of(encode_utf8(replaced(text, start, old_end, with)), new_end),
    }
}

/// The tree that the text a change leaves is parsed against: the one before the change, told of it.
/// There is none where the change replaces the whole text, or the tree is of another grammar.
pub open spec fn kept_tree(
    language: tree_sitter::Language,
    source: Source,
    change: Change,
) -> Option<tree_sitter::Tree> {
    match (change.range, source.parsed) {
        (Some(range), Some(tree)) => if language_of(tree) == language {
            Some(edited_of(tree, edit_of(source.text, range, change.text@)))
        } else {
            None
        },
        _ => None,
    }
}

/// The text that a change leaves, and what the parser makes of it.
pub open spec fn after(language: tree_sitter::Language, source: Source, change: Change) -> Source {
    let text = changed(source.text, change);
    Source { text, parsed: parse_of(language, text, kept_tree(language, source, change)) }
}

proof fn lemma_edit(text: Seq<char>, change: Change)
    requires
        change.range is Some,
        forward(text, change),
        encode_utf8(text).len() <= usize::MAX,
    ensures
        ({
            let bytes = encode_utf8(text);
            let start = clamped(bytes, change.range->0.start);
            let end = clamped(bytes, change.range->0.end);
            let new_end = start + encode_utf8(change.text@).len();
            &&& 0 <= start <= end <= bytes.len()
            &&& new_end <= encode_utf8(changed(text, change)).len()
        }),
{
    lemma_offset_boundary(text, change.range->0.start);
    lemma_offset_boundary(text, change.range->0.end);
    law_a_change_keeps_the_text_around_it(text, change);
}

impl Document {
    /// Parses `text` with the grammar and builds the document for it. `origin` is what to call the
    /// file, and `id` tells the layer it defines from every other one. `None` where the text does
    /// not parse to a tree of a size that a document can hold.
    pub fn new(text: String, language: &tree_sitter::Language, origin: Arc<String>, id: u64) -> (r:
        Option<Self>)
        ensures
            match r {
                Some(document) => {
                    &&& holdable(parsed_alone(*language, text@))
                    &&& document.source() == parsed_alone(*language, text@)
                    &&& document.derived()
                    &&& document.unanalysed()
                    &&& document.commands_defined.origin@ == origin@
                    &&& document.commands_defined.id == id
                },
                None => !holdable(parsed_alone(*language, text@)),
            },
    {
        let read = parse_after(language, text.as_str(), None);
        Self::of(text, read, origin, id)
    }

    /// The document of a text and of what parsing it gave.
    fn of(
        text: String,
        read: Option<(tree_sitter::Tree, SyntaxTree)>,
        origin: Arc<String>,
        id: u64,
    ) -> (r: Option<Self>)
        requires
            read matches Some((parsed, tree)) ==> readable(text@, Some(parsed)) && tree.wf()
                && is_tree_of(tree, tree_rows(parsed)),
        ensures
            match r {
                Some(document) => {
                    &&& read matches Some((parsed, tree)) && document.parsed == Some(parsed)
                    &&& holdable(document.source())
                    &&& document.derived()
                    &&& document.unanalysed()
                    &&& document.text@ == text@
                    &&& document.commands_defined.origin@ == origin@
                    &&& document.commands_defined.id == id
                },
                None => match read {
                    Some((parsed, tree)) => !holdable(
                        Source { text: text@, parsed: Some(parsed) },
                    ),
                    None => true,
                },
            },
    {
        match read {
            Some((parsed, tree)) => {
                let mut document = Self::from_parts(text, tree, origin, id);
                document.parsed = Some(parsed);
                Some(document)
            },
            None => None,
        }
    }

    /// Builds the derived state (line index, symbols and definitions) for `text` and its tree. What
    /// the music means is not looked at yet: that depends on what the file can see, and
    /// [`refresh`](Self::refresh) fills it in.
    pub fn from_parts(text: String, tree: SyntaxTree, origin: Arc<String>, id: u64) -> (r: Self)
        requires
            tree.wf(),
        ensures
            r.derived(),
            r.unanalysed(),
            r.text@ == text@,
            r.tree == tree,
            r.parsed is None,
            r.commands_defined.origin@ == origin@,
            r.commands_defined.id == id,
    {
        let line_index = LineIndex::new(text.as_str());
        let analysis = extract(&tree, text.as_str());
        let ghost views = bindings_of(tree.nodes@, text@);
        let bindings = merge_bindings(&tree, text.as_str(), analysis.assignments);
        let definitions = symbols_of(&bindings, Ghost(views));
        let context_types = read(&tree, text.as_str());
        let context_instances = read_instances(&tree, text.as_str());
        let ghost bound = bindings@;
        let source = Arc::new(text.clone());
        let named = layer(bindings, source, origin, id);
        let commands_defined = Layer {
            origin: named.origin,
            commands: named.commands,
            context_types,
            context_instances,
            id: named.id,
        };
        proof {
            assert forall|name: Seq<char>| #[trigger]
                answers(commands_defined.lookup(name), bound, name, text@) by {
                assert(commands_defined.lookup(name) == named.lookup(name));
                assert(answers(named.lookup(name), bound, name, text@));
            }
            assert(are_bindings(bound, views));
            assert(defines(commands_defined, views, text@));
        }
        let calls: Vec<crate::command::CommandCall> = Vec::new();
        let notes = NoteAnalysis {
            events: Vec::new(),
            commands: Commands::new(calls),
            problems: Vec::new(),
        };
        Self {
            text,
            tree,
            parsed: None,
            line_index,
            definitions,
            references: analysis.references,
            includes: analysis.includes,
            commands_defined: Arc::new(commands_defined),
            notes,
            analysed_in: Vec::new(),
        }
    }

    /// Whether the music was last analysed in a scope of the same layers as `scope`.
    pub fn is_current(&self, scope: &Scope) -> (r: bool)
        ensures
            r == (self.analysed_in@ == layer_ids(scope.layers@)),
    {
        let ids = fingerprint(scope);
        if ids.len() != self.analysed_in.len() {
            return false;
        }
        let mut k: usize = 0;
        while k < ids.len()
            invariant
                k <= ids@.len(),
                ids@.len() == self.analysed_in@.len(),
                ids@ == layer_ids(scope.layers@),
                forall|j: int| 0 <= j < k ==> ids@[j] == self.analysed_in@[j],
            decreases ids.len() - k,
        {
            if ids[k] != self.analysed_in[k] {
                assert(ids@[k as int] != self.analysed_in@[k as int]);
                return false;
            }
            k = k + 1;
        }
        assert(self.analysed_in@ =~= ids@);
        true
    }

    /// Takes over what `notes` makes of the music in `scope`, if that differs from the scope it was
    /// last analysed in. An edit to an included file makes a new layer, and so a new scope for every
    /// file that can see it.
    pub fn refresh(&mut self, scope: &Scope, notes: NoteAnalysis)
        requires
            notes.wf(),
        ensures
            old(self).analysed_in@ == layer_ids(scope.layers@) ==> *final(self) == *old(self),
            old(self).analysed_in@ != layer_ids(scope.layers@) ==> {
                &&& final(self).notes == notes
                &&& final(self).analysed_in@ == layer_ids(scope.layers@)
                &&& *final(self) == (Document {
                    notes: final(self).notes,
                    analysed_in: final(self).analysed_in,
                    ..*old(self)
                })
            },
            old(self).derived() ==> final(self).derived(),
    {
        if self.is_current(scope) {
            return;
        }
        self.notes = notes;
        self.analysed_in = fingerprint(scope);
    }

    /// The text that a change leaves. A change without a range replaces the whole text; a position
    /// outside the text is taken for its end.
    pub fn changed_text(&self, change: &Change) -> (r: String)
        requires
            self.wf(),
            forward(self.text@, *change),
        ensures
            r@ == changed(self.text@, *change),
    {
        match &change.range {
            Some(range) => {
                let start = self.line_index.offset_clamped(range.start);
                let end = self.line_index.offset_clamped(range.end);
                replace_range(self.text.as_str(), start, end, change.text.as_str())
            },
            None => change.text.clone(),
        }
    }

    /// What the tree of this document is told of a change that writes `with` in `range`, and
    /// leaves `text`.
    fn tree_edit(&self, change: &Change, range: &Range, text: &str) -> (r: TreeEdit)
        requires
            self.wf(),
            change.range == Some(*range),
            forward(self.text@, *change),
            text@ == changed(self.text@, *change),
            self.bytes().len() <= LONGEST_TEXT,
            encode_utf8(text@).len() <= LONGEST_TEXT,
        ensures
            r == edit_of(self.text@, *range, change.text@),
            r.start_byte <= r.old_end_byte <= LONGEST_TEXT,
            r.start_byte <= r.new_end_byte <= LONGEST_TEXT,
            fits(r.start_position),
            fits(r.old_end_position),
            fits(r.new_end_position),
    {
        proof {
            lemma_edit(self.text@, *change);
        }
        let start_byte = self.line_index.offset_clamped(range.start);
        let old_end_byte = self.line_index.offset_clamped(range.end);
        let new_end_byte = start_byte + change.text.as_str().as_bytes().len();
        TreeEdit {
            start_byte,
            old_end_byte,
            new_end_byte,
            start_position: point_at(self.text.as_str(), start_byte),
            old_end_position: point_at(self.text.as_str(), old_end_byte),
            new_end_position: point_at(text, new_end_byte),
        }
    }

    /// The document that a change leaves. A change with a range is parsed against the tree of this
    /// document, a change without one on its own. `None` where the text that the change leaves is
    /// none that a document can hold.
    pub fn changed_by(&self, change: &Change, language: &tree_sitter::Language, id: u64) -> (r:
        Option<Self>)
        requires
            self.wf(),
            forward(self.text@, *change),
        ensures
            match r {
                Some(document) => {
                    &&& holdable(after(*language, self.source(), *change))
                    &&& document.source() == after(*language, self.source(), *change)
                    &&& document.derived()
                    &&& document.unanalysed()
                    &&& document.commands_defined.origin@ == self.commands_defined.origin@
                    &&& document.commands_defined.id == id
                },
                None => !holdable(after(*language, self.source(), *change)),
            },
    {
        let text = self.changed_text(change);
        if text.as_str().as_bytes().len() > LONGEST_TEXT {
            return None;
        }
        let origin = self.commands_defined.origin.clone();
        let read = match (&change.range, &self.parsed) {
            (Some(range), Some(tree)) => if is_of_language(tree, language) {
                let mut kept = tree.clone();
                edit_tree(&mut kept, self.tree_edit(change, range, text.as_str()));
                parse_after(language, text.as_str(), Some(&kept))
            } else {
                parse_after(language, text.as_str(), None)
            },
            _ => parse_after(language, text.as_str(), None),
        };
        Self::of(text, read, origin, id)
    }

    /// Applies one change: see [`changed_by`](Self::changed_by). `false`, with nothing changed, where
    /// the text that the change leaves is none that a document can hold.
    pub fn apply_change(&mut self, change: &Change, language: &tree_sitter::Language, id: u64) -> (r:
        bool)
        requires
            old(self).wf(),
            forward(old(self).text@, *change),
        ensures
            r == holdable(after(*language, old(self).source(), *change)),
            !r ==> *final(self) == *old(self),
            r ==> {
                &&& final(self).source() == after(*language, old(self).source(), *change)
                &&& final(self).derived()
                &&& final(self).unanalysed()
                &&& final(self).commands_defined.origin@ == old(self).commands_defined.origin@
                &&& final(self).commands_defined.id == id
            },
    {
        match self.changed_by(change, language, id) {
            Some(document) => {
                *self = document;
                true
            },
            None => false,
        }
    }

    /// This document with what `notes` makes of its music in `scope`: see
    /// [`refresh`](Self::refresh).
    pub fn refreshed(&self, scope: &Scope, notes: NoteAnalysis) -> (r: Self)
        requires
            self.derived(),
            notes.wf(),
        ensures
            r.derived(),
            r.source() == self.source(),
            r.nodes() == self.nodes(),
            r.commands_defined.origin@ == self.commands_defined.origin@,
            r.commands_defined.id == self.commands_defined.id,
            r.notes == notes,
            r.analysed_in@ == layer_ids(scope.layers@),
    {
        let origin = self.commands_defined.origin.clone();
        let id = self.commands_defined.id;
        let mut document = Self::from_parts(self.text.clone(), self.tree.copy(), origin, id);
        document.parsed = match &self.parsed {
            Some(parsed) => Some(parsed.clone()),
            None => None,
        };
        document.notes = notes;
        document.analysed_in = fingerprint(scope);
        document
    }
}

/// What a change leaves alone: everything before its range and everything behind it.
pub proof fn law_a_change_keeps_the_text_around_it(text: Seq<char>, change: Change)
    requires
        change.range is Some,
        forward(text, change),
        encode_utf8(text).len() <= usize::MAX,
    ensures
        ({
            let start = clamped(encode_utf8(text), change.range->0.start);
            let end = clamped(encode_utf8(text), change.range->0.end);
            encode_utf8(changed(text, change)) == encode_utf8(text).subrange(0, start) + encode_utf8(
                change.text@,
            ) + encode_utf8(text).subrange(end, encode_utf8(text).len() as int)
        }),
{
    let bytes = encode_utf8(text);
    let start = clamped(bytes, change.range->0.start);
    let end = clamped(bytes, change.range->0.end);
    encode_utf8_valid_utf8(text);
    is_char_boundary_start_end_of_seq(bytes);
    lemma_offset_boundary(text, change.range->0.start);
    lemma_offset_boundary(text, change.range->0.end);
    lemma_piece_bytes(text, 0, start);
    lemma_piece_bytes(text, end, bytes.len() as int);
    let head = piece(text, 0, start);
    let tail = piece(text, end, bytes.len() as int);
    lemma_encode_concat(head + change.text@, tail);
    lemma_encode_concat(head, change.text@);
}

/// What is read out of a document is settled by its text and its tree: however two documents came by
/// the same text and the same tree, edit by edit or all at once, they define, refer to and bring in
/// the same things at the same places.
pub proof fn law_text_and_tree_settle_what_is_read(a: Document, b: Document)
    requires
        a.derived(),
        b.derived(),
        a.text@ == b.text@,
        a.nodes() == b.nodes(),
    ensures
        symbol_views(a.definitions@) == symbol_views(b.definitions@),
        symbol_views(a.references@) == symbol_views(b.references@),
        include_views(a.includes@) == include_views(b.includes@),
        type_views(a.commands_defined.context_types@) == type_views(
            b.commands_defined.context_types@,
        ),
        instance_views(a.commands_defined.context_instances@) == instance_views(
            b.commands_defined.context_instances@,
        ),
{
}

} // verus!
