//! Stacking layers into the scope of one document, and what can be seen from there.
//!
//! LilyPond's reserved words win over everything. A document's own definitions come next, then those
//! of the files it can reach, nearest first, and then what every document shares.
use vstd::prelude::*;
use std::sync::Arc;
use crate::command::Command;
use crate::command::builtins::{
    OURS, TableRow, are_rows, curated_commands, curated_commands_rows, reserved, reserved_rows,
};
use crate::context::{ContextInstance, ContextType};
use crate::note_names::NoteLanguage;
use crate::vocabulary::{
    Layer, Scope, entry_at, find_instance, find_type, instance_among, lemma_entry_at, lookup_in,
    type_among,
};

verus! {

/// What every document shares.
#[derive(Debug)]
pub struct Base {
    /// The reserved words, which no file can rebind.
    pub reserved: Arc<Layer>,
    /// What is under every document's own definitions, those that win first.
    pub shared: Vec<Arc<Layer>>,
    pub note_names: Vec<Arc<NoteLanguage>>,
}

/// The layers among the first `n` that define anything.
pub open spec fn layers_with_content(layers: Seq<Arc<Layer>>, n: int) -> Seq<Arc<Layer>>
    decreases n,
{
    if n <= 0 {
        Seq::empty()
    } else if layers[n - 1].defines_nothing() {
        layers_with_content(layers, n - 1)
    } else {
        layers_with_content(layers, n - 1).push(layers[n - 1])
    }
}

/// The layers of a scope: the reserved words, the files' own, and the shared ones.
pub open spec fn stacked(base: Base, files: Seq<Arc<Layer>>) -> Seq<Arc<Layer>> {
    seq![base.reserved] + layers_with_content(files, files.len() as int) + base.shared@
}

/// What tells one stack of layers from another.
pub open spec fn layer_ids(layers: Seq<Arc<Layer>>) -> Seq<u64> {
    layers.map_values(|layer: Arc<Layer>| layer.id)
}

/// Whether a layer is one of this library's own: the commands of a table and nothing else.
pub open spec fn is_own_layer(layer: Layer, rows: Seq<TableRow>, id: u64) -> bool {
    &&& layer.wf()
    &&& are_rows(layer.commands@, rows)
    &&& layer.origin@ == OURS@
    &&& layer.context_types@.len() == 0
    &&& layer.context_instances@.len() == 0
    &&& layer.id == id
}

impl Base {
    /// This library's own layers alone.
    pub fn builtins(note_names: Vec<Arc<NoteLanguage>>) -> (r: Self)
        ensures
            r.note_names == note_names,
            is_own_layer(*r.reserved, reserved_rows(), 0),
            r.shared@.len() == 1,
            is_own_layer(*r.shared@[0], curated_commands_rows(), 1),
    {
        let mut shared: Vec<Arc<Layer>> = Vec::new();
        shared.push(Arc::new(curated_commands()));
        Self { reserved: Arc::new(reserved()), shared, note_names }
    }

    /// This base with the layers read from an installation under it.
    pub fn over(self, installed: Vec<Arc<Layer>>) -> (r: Self)
        ensures
            r.reserved == self.reserved,
            r.shared@ == self.shared@ + installed@,
            r.note_names == self.note_names,
    {
        let mut shared = self.shared;
        let mut k: usize = 0;
        assert(self.shared@ =~= self.shared@ + installed@.subrange(0, 0));
        while k < installed.len()
            invariant
                k <= installed@.len(),
                shared@ == self.shared@ + installed@.subrange(0, k as int),
            decreases installed.len() - k,
        {
            shared.push(installed[k].clone());
            assert(shared@ =~= self.shared@ + installed@.subrange(0, k + 1));
            k = k + 1;
        }
        assert(installed@.subrange(0, k as int) =~= installed@);
        Self { reserved: self.reserved, shared, note_names: self.note_names }
    }

    /// The scope of a document that can see `files`, the layers of its files, nearest first. Layers
    /// that define nothing are left out.
    pub fn for_document(&self, files: &Vec<Arc<Layer>>) -> (r: Scope)
        ensures
            r.layers@ == stacked(*self, files@),
            r.note_names@ == self.note_names@,
    {
        let mut layers: Vec<Arc<Layer>> = Vec::new();
        layers.push(self.reserved.clone());
        let ghost head = layers@;
        assert(head =~= seq![self.reserved]);
        let mut k: usize = 0;
        assert(layers@ =~= head + layers_with_content(files@, 0));
        while k < files.len()
            invariant
                k <= files@.len(),
                layers@ == head + layers_with_content(files@, k as int),
            decreases files.len() - k,
        {
            if !files[k].is_empty() {
                layers.push(files[k].clone());
            }
            assert(layers@ =~= head + layers_with_content(files@, k + 1));
            k = k + 1;
        }
        let ghost mine = layers@;
        let mut m: usize = 0;
        assert(layers@ =~= mine + self.shared@.subrange(0, 0));
        while m < self.shared.len()
            invariant
                m <= self.shared@.len(),
                layers@ == mine + self.shared@.subrange(0, m as int),
            decreases self.shared.len() - m,
        {
            layers.push(self.shared[m].clone());
            assert(layers@ =~= mine + self.shared@.subrange(0, m + 1));
            m = m + 1;
        }
        assert(self.shared@.subrange(0, m as int) =~= self.shared@);
        let mut note_names: Vec<Arc<NoteLanguage>> = Vec::new();
        let mut i: usize = 0;
        while i < self.note_names.len()
            invariant
                i <= self.note_names@.len(),
                note_names@ == self.note_names@.subrange(0, i as int),
            decreases self.note_names.len() - i,
        {
            note_names.push(self.note_names[i].clone());
            assert(note_names@ =~= self.note_names@.subrange(0, i + 1));
            i = i + 1;
        }
        assert(self.note_names@.subrange(0, i as int) =~= self.note_names@);
        Scope { layers, note_names }
    }
}

/// The reserved words win over everything a file or the installation defines.
pub proof fn law_reserved_words_win(base: Base, files: Seq<Arc<Layer>>, name: Seq<char>)
    requires
        base.reserved.lookup(name) is Some,
    ensures
        lookup_in(stacked(base, files), name) == Some(
            (base.reserved.lookup(name)->0, base.reserved.origin@),
        ),
{
    assert(stacked(base, files)[0] == base.reserved);
}

/// A layer that defines nothing makes no difference to a scope.
pub proof fn law_empty_layers_are_left_out(base: Base, files: Seq<Arc<Layer>>, layer: Arc<Layer>)
    requires
        layer.defines_nothing(),
    ensures
        stacked(base, files.push(layer)) == stacked(base, files),
{
    lemma_content_of_prefix(files, layer, files.len() as int);
}

proof fn lemma_lookup_push(layers: Seq<Arc<Layer>>, layer: Arc<Layer>, name: Seq<char>)
    ensures
        lookup_in(layers.push(layer), name) == match lookup_in(layers, name) {
            Some(found) => Some(found),
            None => lookup_in(seq![layer], name),
        },
    decreases layers.len(),
{
    let all = layers.push(layer);
    if layers.len() > 0 {
        lemma_lookup_push(layers.drop_first(), layer, name);
        assert(all.drop_first() =~= layers.drop_first().push(layer));
        assert(all[0] == layers[0]);
    } else {
        assert(all =~= seq![layer]);
    }
}

proof fn lemma_lookup_one(layer: Arc<Layer>, name: Seq<char>)
    ensures
        lookup_in(seq![layer], name) == match layer.lookup(name) {
            Some(command) => Some((command, layer.origin@)),
            None => None,
        },
{
    reveal_with_fuel(lookup_in, 2);
    assert(seq![layer][0] == layer);
    assert(seq![layer].drop_first() =~= Seq::empty());
}

proof fn lemma_lookup_concat(front: Seq<Arc<Layer>>, back: Seq<Arc<Layer>>, name: Seq<char>)
    ensures
        lookup_in(front + back, name) == match lookup_in(front, name) {
            Some(found) => Some(found),
            None => lookup_in(back, name),
        },
    decreases front.len(),
{
    if front.len() > 0 {
        lemma_lookup_concat(front.drop_first(), back, name);
        assert((front + back).drop_first() =~= front.drop_first() + back);
        assert((front + back)[0] == front[0]);
    } else {
        assert(front + back =~= back);
    }
}

/// Leaving out layers that define nothing changes no answer.
proof fn lemma_lookup_content(files: Seq<Arc<Layer>>, n: int, name: Seq<char>)
    requires
        0 <= n <= files.len(),
    ensures
        lookup_in(layers_with_content(files, n), name) == lookup_in(files.subrange(0, n), name),
    decreases n,
{
    if n > 0 {
        lemma_lookup_content(files, n - 1, name);
        let layer = files[n - 1];
        assert(files.subrange(0, n) =~= files.subrange(0, n - 1).push(layer));
        lemma_lookup_push(files.subrange(0, n - 1), layer, name);
        lemma_lookup_one(layer, name);
        lemma_lookup_push(layers_with_content(files, n - 1), layer, name);
        assert(layer.defines_nothing() ==> layer.lookup(name) is None);
    } else {
        assert(files.subrange(0, 0) =~= Seq::empty());
    }
}

/// A document's own definitions win over those of the files it can reach, and a nearer file's over
/// those of one farther away.
pub proof fn law_the_nearest_file_wins(base: Base, files: Seq<Arc<Layer>>, name: Seq<char>, k: int)
    requires
        base.reserved.lookup(name) is None,
        0 <= k < files.len(),
        files[k].lookup(name) is Some,
        forall|j: int| 0 <= j < k ==> (#[trigger] files[j]).lookup(name) is None,
    ensures
        lookup_in(stacked(base, files), name) == Some(
            (files[k].lookup(name)->0, files[k].origin@),
        ),
{
    let n = files.len() as int;
    let own = layers_with_content(files, n);
    lemma_lookup_one(base.reserved, name);
    lemma_lookup_concat(seq![base.reserved], own, name);
    lemma_lookup_concat(seq![base.reserved] + own, base.shared@, name);
    lemma_lookup_content(files, n, name);
    lemma_lookup_in_front(files, name, 0, k);
    assert(files.subrange(0, n) =~= files);
    assert(files =~= files.subrange(0, k) + files.subrange(k, n));
    lemma_lookup_concat(files.subrange(0, k), files.subrange(k, n), name);
    assert(files.subrange(k, n)[0] == files[k]);
}

/// What is shared answers only where neither a reserved word nor a file does.
pub proof fn law_what_is_shared_comes_last(base: Base, files: Seq<Arc<Layer>>, name: Seq<char>)
    requires
        base.reserved.lookup(name) is None,
        forall|j: int| 0 <= j < files.len() ==> (#[trigger] files[j]).lookup(name) is None,
    ensures
        lookup_in(stacked(base, files), name) == lookup_in(base.shared@, name),
{
    let n = files.len() as int;
    let own = layers_with_content(files, n);
    lemma_lookup_one(base.reserved, name);
    lemma_lookup_concat(seq![base.reserved], own, name);
    lemma_lookup_concat(seq![base.reserved] + own, base.shared@, name);
    lemma_lookup_content(files, n, name);
    lemma_lookup_in_front(files, name, 0, n);
}

proof fn lemma_content_of_prefix(files: Seq<Arc<Layer>>, layer: Arc<Layer>, n: int)
    requires
        0 <= n <= files.len(),
    ensures
        layers_with_content(files.push(layer), n) == layers_with_content(files, n),
    decreases n,
{
    if n > 0 {
        lemma_content_of_prefix(files, layer, n - 1);
    }
}

/// What replacing the layer of one file does to the layers that define anything.
proof fn lemma_content_of_update(files: Seq<Arc<Layer>>, k: int, layer: Arc<Layer>, n: int)
    requires
        0 <= k < files.len(),
        0 <= n <= files.len(),
    ensures
        ({
            let before = layers_with_content(files, n);
            let now = layers_with_content(files.update(k, layer), n);
            let place = layers_with_content(files, k).len() as int;
            &&& n <= k ==> now == before
            &&& k < n && !files[k].defines_nothing() && !layer.defines_nothing() ==> {
                &&& now.len() == before.len()
                &&& 0 <= place < now.len()
                &&& before[place] == files[k]
                &&& now[place] == layer
            }
            &&& k < n && !files[k].defines_nothing() && layer.defines_nothing() ==> before.len()
                == now.len() + 1
            &&& k < n && files[k].defines_nothing() && !layer.defines_nothing() ==> now.len()
                == before.len() + 1
        }),
    decreases n,
{
    if n > 0 {
        lemma_content_of_update(files, k, layer, n - 1);
    }
}

/// An edit shows in every scope that can see the file: once the layer of one of its files is another
/// one, a scope is told from what it was before, unless neither layer defines anything.
pub proof fn law_an_edit_makes_a_scope_another_one(
    base: Base,
    files: Seq<Arc<Layer>>,
    k: int,
    layer: Arc<Layer>,
)
    requires
        0 <= k < files.len(),
        layer.id != files[k].id,
        !layer.defines_nothing() || !files[k].defines_nothing(),
    ensures
        layer_ids(stacked(base, files.update(k, layer))) != layer_ids(stacked(base, files)),
{
    let n = files.len() as int;
    lemma_content_of_update(files, k, layer, n);
    let before = layer_ids(stacked(base, files));
    let now = layer_ids(stacked(base, files.update(k, layer)));
    let place = layers_with_content(files, k).len() as int;
    assert(files.update(k, layer).len() == n);
    assert(!layer.defines_nothing() && !files[k].defines_nothing() ==> before[1 + place]
        == files[k].id && now[1 + place] == layer.id);
    assert(before.len() == now.len() ==> !layer.defines_nothing()
        && !files[k].defines_nothing());
}

/// The identities of the layers of a scope.
pub fn fingerprint(scope: &Scope) -> (r: Vec<u64>)
    ensures
        r@ == layer_ids(scope.layers@),
{
    let mut out: Vec<u64> = Vec::new();
    let mut k: usize = 0;
    while k < scope.layers.len()
        invariant
            k <= scope.layers@.len(),
            out@ == layer_ids(scope.layers@.subrange(0, k as int)),
        decreases scope.layers.len() - k,
    {
        out.push(scope.layers[k].id);
        assert(out@ =~= layer_ids(scope.layers@.subrange(0, k + 1)));
        k = k + 1;
    }
    assert(scope.layers@.subrange(0, k as int) =~= scope.layers@);
    out
}

/// One command that a scope can see.
#[derive(Debug)]
pub struct Visible {
    pub name: String,
    pub command: Arc<Command>,
    /// Where the knowledge of it came from.
    pub origin: Arc<String>,
}

/// What a [`Visible`] says.
pub struct VisibleView {
    pub name: Seq<char>,
    pub command: Command,
    pub origin: Seq<char>,
}

impl View for Visible {
    type V = VisibleView;

    open spec fn view(&self) -> VisibleView {
        VisibleView { name: self.name@, command: *self.command, origin: self.origin@ }
    }
}

pub open spec fn visible_views(seen: Seq<Visible>) -> Seq<VisibleView> {
    seen.map_values(|one: Visible| one@)
}

/// The commands among the first `m` of a layer that no layer before it hides.
pub open spec fn seen_in(layer: Layer, before: Seq<Arc<Layer>>, m: int) -> Seq<VisibleView>
    decreases m,
{
    if m <= 0 {
        Seq::empty()
    } else {
        let entry = layer.commands@[m - 1];
        let rest = seen_in(layer, before, m - 1);
        if lookup_in(before, entry.name@) is None {
            rest.push(
                VisibleView {
                    name: entry.name@,
                    command: *entry.command,
                    origin: layer.origin@,
                },
            )
        } else {
            rest
        }
    }
}

/// The commands that the first `n` layers show, each under the first layer that knows it.
pub open spec fn seen_from(layers: Seq<Arc<Layer>>, n: int) -> Seq<VisibleView>
    decreases n,
{
    if n <= 0 {
        Seq::empty()
    } else {
        seen_from(layers, n - 1) + seen_in(
            *layers[n - 1],
            layers.subrange(0, n - 1),
            layers[n - 1].commands@.len() as int,
        )
    }
}

proof fn lemma_lookup_in_front(layers: Seq<Arc<Layer>>, name: Seq<char>, k: int, n: int)
    requires
        0 <= k <= n <= layers.len(),
    ensures
        lookup_in(layers.subrange(k, n), name) is None <==> forall|j: int|
            k <= j < n ==> (#[trigger] layers[j]).lookup(name) is None,
    decreases n - k,
{
    if k < n {
        lemma_lookup_in_front(layers, name, k + 1, n);
        assert(layers.subrange(k, n).drop_first() =~= layers.subrange(k + 1, n));
        assert(layers.subrange(k, n)[0] == layers[k]);
    }
}

/// Whether every layer is well formed.
pub open spec fn all_wf(layers: Seq<Arc<Layer>>) -> bool {
    forall|k: int| 0 <= k < layers.len() ==> (#[trigger] layers[k]).wf()
}

/// The commands among the first `m` of a layer that no layer before it hides.
spec fn shown_by(layer: Arc<Layer>, before: Seq<Arc<Layer>>, m: int) -> Seq<VisibleView> {
    seen_in(*layer, before, m)
}

proof fn lemma_own_entry(layer: Arc<Layer>, i: int)
    requires
        layer.wf(),
        0 <= i < layer.commands@.len(),
    ensures
        layer.lookup(layer.commands@[i].name@) == Some(*layer.commands@[i].command),
{
    let name = layer.commands@[i].name@;
    lemma_entry_at(layer.commands@, name);
    let found = entry_at(layer.commands@, name);
    if found is None {
        assert(layer.commands@[i].name@ != name);
    } else {
        let j = found->0;
        assert(layer.commands@[j].name@ == layer.commands@[i].name@);
    }
}

/// What the first `m` commands of a layer show is theirs, new, and shown once.
proof fn lemma_seen_in(layer: Arc<Layer>, before: Seq<Arc<Layer>>, m: int)
    requires
        layer.wf(),
        0 <= m <= layer.commands@.len(),
    ensures
        ({
            let seen = shown_by(layer, before, m);
            &&& forall|i: int|
                0 <= i < seen.len() ==> lookup_in(before, (#[trigger] seen[i]).name) is None
                    && layer.lookup(seen[i].name) == Some(seen[i].command) && seen[i].origin
                    == layer.origin@ && among(*layer, m, seen[i].name)
            &&& forall|i: int, j: int|
                0 <= i < j < seen.len() ==> (#[trigger] seen[i]).name != (#[trigger] seen[j]).name
            &&& forall|k: int|
                0 <= k < m && lookup_in(before, (#[trigger] layer.commands@[k]).name@) is None
                    ==> shown(seen, layer.commands@[k].name@)
        }),
    decreases m,
{
    if m > 0 {
        lemma_seen_in(layer, before, m - 1);
        lemma_own_entry(layer, m - 1);
        let rest = shown_by(layer, before, m - 1);
        let seen = shown_by(layer, before, m);
        let name = layer.commands@[m - 1].name@;
        assert forall|i: int| 0 <= i < rest.len() implies (#[trigger] rest[i]).name != name by {
            assert(among(*layer, m - 1, rest[i].name));
        }
        assert forall|i: int| 0 <= i < seen.len() implies among(*layer, m, (#[trigger] seen[i]).name) by {
            if i < rest.len() {
                assert(seen[i] == rest[i]);
                let k = choose|k: int|
                    0 <= k < m - 1 && (#[trigger] layer.commands@[k]).name@ == rest[i].name;
                assert(layer.commands@[k].name@ == seen[i].name);
            } else {
                assert(layer.commands@[m - 1].name@ == seen[i].name);
            }
        }
        assert forall|k: int|
            0 <= k < m && lookup_in(before, (#[trigger] layer.commands@[k]).name@) is None implies shown(
            seen,
            layer.commands@[k].name@,
        ) by {
            if k < m - 1 {
                assert(shown(rest, layer.commands@[k].name@));
                let i = choose|i: int|
                    0 <= i < rest.len() && (#[trigger] rest[i]).name == layer.commands@[k].name@;
                assert(seen[i].name == layer.commands@[k].name@);
            } else {
                assert(seen[seen.len() - 1].name == name);
            }
        }
    }
}

/// Whether one of the first `m` commands of a layer is of this name.
spec fn among(layer: Layer, m: int, name: Seq<char>) -> bool {
    exists|k: int| 0 <= k < m && (#[trigger] layer.commands@[k]).name@ == name
}

/// Whether a list shows a name.
pub open spec fn shown(seen: Seq<VisibleView>, name: Seq<char>) -> bool {
    exists|i: int| 0 <= i < seen.len() && (#[trigger] seen[i]).name == name
}

/// What is visible is what a name means: every name that a scope knows is listed, once, with the
/// command that a call of it reaches.
pub proof fn law_what_is_visible_is_what_a_name_means(layers: Seq<Arc<Layer>>, n: int)
    requires
        all_wf(layers),
        0 <= n <= layers.len(),
    ensures
        ({
            let seen = seen_from(layers, n);
            let front = layers.subrange(0, n);
            &&& forall|i: int|
                0 <= i < seen.len() ==> lookup_in(front, (#[trigger] seen[i]).name) == Some(
                    (seen[i].command, seen[i].origin),
                )
            &&& forall|i: int, j: int|
                0 <= i < j < seen.len() ==> (#[trigger] seen[i]).name != (#[trigger] seen[j]).name
            &&& forall|name: Seq<char>| #[trigger]
                lookup_in(front, name) is Some ==> shown(seen, name)
        }),
    decreases n,
{
    let front = layers.subrange(0, n);
    let seen = seen_from(layers, n);
    if n <= 0 {
        assert(front =~= Seq::empty());
    } else {
        law_what_is_visible_is_what_a_name_means(layers, n - 1);
        let before = layers.subrange(0, n - 1);
        let layer = layers[n - 1];
        let m = layer.commands@.len() as int;
        let earlier = seen_from(layers, n - 1);
        let own = shown_by(layer, before, m);
        lemma_seen_in(layer, before, m);
        assert(front =~= before.push(layer));
        assert(seen =~= earlier + own);
        assert forall|i: int| 0 <= i < seen.len() implies lookup_in(
            front,
            (#[trigger] seen[i]).name,
        ) == Some((seen[i].command, seen[i].origin)) by {
            lemma_lookup_push(before, layer, seen[i].name);
            lemma_lookup_one(layer, seen[i].name);
            if i < earlier.len() {
                assert(seen[i] == earlier[i]);
            } else {
                assert(seen[i] == own[i - earlier.len()]);
            }
        }
        assert forall|i: int, j: int| 0 <= i < j < seen.len() implies (#[trigger] seen[i]).name != (
        #[trigger] seen[j]).name by {
            if j < earlier.len() {
                assert(seen[i] == earlier[i] && seen[j] == earlier[j]);
            } else {
                assert(seen[j] == own[j - earlier.len()]);
                if i < earlier.len() {
                    assert(seen[i] == earlier[i]);
                } else {
                    assert(seen[i] == own[i - earlier.len()]);
                }
            }
        }
        assert forall|name: Seq<char>| #[trigger] lookup_in(front, name) is Some implies shown(
            seen,
            name,
        ) by {
            lemma_lookup_push(before, layer, name);
            lemma_lookup_one(layer, name);
            if lookup_in(before, name) is Some {
                assert(shown(earlier, name));
                let i = choose|i: int|
                    0 <= i < earlier.len() && (#[trigger] earlier[i]).name == name;
                assert(seen[i].name == name);
            } else {
                lemma_entry_at(layer.commands@, name);
                let k = entry_at(layer.commands@, name)->0;
                assert(layer.commands@[k].name@ == name);
                assert(shown(own, name));
                let i = choose|i: int| 0 <= i < own.len() && (#[trigger] own[i]).name == name;
                assert(seen[earlier.len() + i].name == name);
            }
        }
    }
}

fn known_before(layers: &Vec<Arc<Layer>>, name: &str, n: usize) -> (r: bool)
    requires
        n <= layers@.len(),
    ensures
        r == (lookup_in(layers@.subrange(0, n as int), name@) is Some),
{
    proof {
        lemma_lookup_in_front(layers@, name@, 0, n as int);
    }
    let mut k: usize = 0;
    while k < n
        invariant
            k <= n <= layers@.len(),
            forall|j: int| 0 <= j < k ==> (#[trigger] layers@[j]).lookup(name@) is None,
            lookup_in(layers@.subrange(0, n as int), name@) is None <==> forall|j: int|
                0 <= j < n ==> (#[trigger] layers@[j]).lookup(name@) is None,
        decreases n - k,
    {
        if layers[k].get(name).is_some() {
            assert(layers@[k as int].lookup(name@) is Some);
            return true;
        }
        k = k + 1;
    }
    false
}

fn push_visible(layers: &Vec<Arc<Layer>>, n: usize, out: &mut Vec<Visible>)
    requires
        n < layers@.len(),
    ensures
        visible_views(final(out)@) == visible_views(old(out)@) + seen_in(
            *layers@[n as int],
            layers@.subrange(0, n as int),
            layers@[n as int].commands@.len() as int,
        ),
{
    let layer = &layers[n];
    let ghost before = visible_views(out@);
    let ghost front = layers@.subrange(0, n as int);
    let mut m: usize = 0;
    assert(before + seen_in(**layer, front, 0) =~= before);
    while m < layer.commands.len()
        invariant
            n < layers@.len(),
            **layer == *layers@[n as int],
            m <= layer.commands@.len(),
            front == layers@.subrange(0, n as int),
            visible_views(out@) == before + seen_in(**layer, front, m as int),
        decreases layer.commands.len() - m,
    {
        let entry = &layer.commands[m];
        if !known_before(layers, entry.name.as_str(), n) {
            let ghost last = visible_views(out@);
            let one = Visible {
                name: entry.name.clone(),
                command: entry.command.clone(),
                origin: layer.origin.clone(),
            };
            out.push(one);
            assert(visible_views(out@) =~= last.push(one@));
            assert(visible_views(out@) =~= before + seen_in(**layer, front, m + 1));
        }
        m = m + 1;
    }
}

/// Every command a scope can see, with where it came from.
pub fn visible(scope: &Scope) -> (r: Vec<Visible>)
    ensures
        visible_views(r@) == seen_from(scope.layers@, scope.layers@.len() as int),
{
    let mut out: Vec<Visible> = Vec::new();
    assert(visible_views(out@) =~= Seq::empty());
    let mut n: usize = 0;
    while n < scope.layers.len()
        invariant
            n <= scope.layers@.len(),
            visible_views(out@) == seen_from(scope.layers@, n as int),
        decreases scope.layers.len() - n,
    {
        push_visible(&scope.layers, n, &mut out);
        n = n + 1;
    }
    out
}

/// The context type `name` in the first layer that knows it, and that layer's origin.
pub open spec fn type_known(layers: Seq<Arc<Layer>>, name: Seq<char>) -> Option<
    (ContextType, Seq<char>),
>
    decreases layers.len(),
{
    if layers.len() == 0 {
        None
    } else {
        match type_among(layers[0].context_types@, name) {
            Some(i) => Some((layers[0].context_types@[i], layers[0].origin@)),
            None => type_known(layers.drop_first(), name),
        }
    }
}

/// The context type called `name`, and where the knowledge of it came from.
pub fn known_context_type<'a>(scope: &'a Scope, name: &str) -> (r: Option<
    (&'a ContextType, &'a str),
>)
    ensures
        match r {
            Some((found, origin)) => type_known(scope.layers@, name@) == Some((*found, origin@)),
            None => type_known(scope.layers@, name@) is None,
        },
{
    let mut k: usize = 0;
    assert(scope.layers@.subrange(0, scope.layers@.len() as int) =~= scope.layers@);
    while k < scope.layers.len()
        invariant
            k <= scope.layers@.len(),
            type_known(scope.layers@, name@) == type_known(
                scope.layers@.subrange(k as int, scope.layers@.len() as int),
                name@,
            ),
        decreases scope.layers.len() - k,
    {
        assert(scope.layers@.subrange(k as int, scope.layers@.len() as int).drop_first()
            =~= scope.layers@.subrange(k + 1, scope.layers@.len() as int));
        match find_type(&scope.layers[k].context_types, name) {
            Some(i) => {
                return Some(
                    (&scope.layers[k].context_types[i], scope.layers[k].origin.as_str()),
                );
            },
            None => {},
        }
        k = k + 1;
    }
    None
}

/// The context instance `name` in the first layer that knows it, and that layer's origin.
pub open spec fn instance_known(layers: Seq<Arc<Layer>>, name: Seq<char>) -> Option<
    (ContextInstance, Seq<char>),
>
    decreases layers.len(),
{
    if layers.len() == 0 {
        None
    } else {
        match instance_among(layers[0].context_instances@, name) {
            Some(i) => Some((layers[0].context_instances@[i], layers[0].origin@)),
            None => instance_known(layers.drop_first(), name),
        }
    }
}

/// The context instance called `name`, and where the knowledge of it came from.
pub fn known_context_instance<'a>(scope: &'a Scope, name: &str) -> (r: Option<
    (&'a ContextInstance, &'a str),
>)
    ensures
        match r {
            Some((found, origin)) => instance_known(scope.layers@, name@) == Some(
                (*found, origin@),
            ),
            None => instance_known(scope.layers@, name@) is None,
        },
{
    let mut k: usize = 0;
    assert(scope.layers@.subrange(0, scope.layers@.len() as int) =~= scope.layers@);
    while k < scope.layers.len()
        invariant
            k <= scope.layers@.len(),
            instance_known(scope.layers@, name@) == instance_known(
                scope.layers@.subrange(k as int, scope.layers@.len() as int),
                name@,
            ),
        decreases scope.layers.len() - k,
    {
        assert(scope.layers@.subrange(k as int, scope.layers@.len() as int).drop_first()
            =~= scope.layers@.subrange(k + 1, scope.layers@.len() as int));
        match find_instance(&scope.layers[k].context_instances, name) {
            Some(i) => {
                return Some(
                    (&scope.layers[k].context_instances[i], scope.layers[k].origin.as_str()),
                );
            },
            None => {},
        }
        k = k + 1;
    }
    None
}

} // verus!
