//! Documents by the URI of their file: those that are open, and those read from disk.
//!
//! They are held in a `dashmap::DashMap`. Its methods change the map through a shared reference; here
//! they are reached only through the functions below, which take the map by a mutable reference
//! wherever they change it.
use vstd::prelude::*;
use std::hash::RandomState;
use std::sync::Arc;
use crate::document::Document;

verus! {

/// The concurrent map of the dashmap crate.
#[verifier::external_type_specification]
#[verifier::external_body]
#[verifier::reject_recursive_types(K)]
#[verifier::reject_recursive_types(V)]
#[verifier::reject_recursive_types(S)]
pub struct ExDashMap<K, V, S>(dashmap::DashMap<K, V, S>);

/// A document in a map, and when its file was last written, where it was read from there.
#[derive(Debug)]
pub struct Held {
    pub document: Arc<Document>,
    pub modified: Option<i128>,
}

/// The documents that a map holds, by URI.
pub uninterp spec fn held(map: dashmap::DashMap<String, Held, RandomState>) -> Map<Seq<char>, Held>;

/// No documents at all.
pub open spec fn nothing_held() -> Map<Seq<char>, Held> {
    Map::empty()
}

/// `DashMap::new`: a map that holds nothing.
#[verifier::external_body]
pub(crate) fn empty_map() -> (r: dashmap::DashMap<String, Held, RandomState>)
    ensures
        held(r) == nothing_held(),
{
    dashmap::DashMap::new()
}

/// `DashMap::insert`: the map holds the document under the URI, in place of any it held there, and
/// otherwise what it did.
#[verifier::external_body]
pub(crate) fn put(map: &mut dashmap::DashMap<String, Held, RandomState>, uri: String, entry: Held)
    ensures
        held(*final(map)) == held(*old(map)).insert(uri@, entry),
{
    map.insert(uri, entry);
}

/// `DashMap::remove`: the map holds nothing under the URI any more, and otherwise what it did.
#[verifier::external_body]
pub(crate) fn discard(map: &mut dashmap::DashMap<String, Held, RandomState>, uri: &str)
    ensures
        held(*final(map)) == held(*old(map)).remove(uri@),
{
    map.remove(uri);
}

/// `DashMap::get`: what the map holds under the URI, if anything. The guard it gives is let go at
/// once.
#[verifier::external_body]
pub(crate) fn look_up(map: &dashmap::DashMap<String, Held, RandomState>, uri: &str) -> (r: Option<
    Held,
>)
    ensures
        match r {
            Some(entry) => held(*map).contains_key(uri@) && held(*map)[uri@] == entry,
            None => !held(*map).contains_key(uri@),
        },
{
    map.get(uri).map(|entry| Held { document: entry.document.clone(), modified: entry.modified })
}

/// `DashMap::iter`: the URI of everything the map holds, each once. In which order they come is not
/// stated: it depends on how the map hashes them.
#[verifier::external_body]
pub(crate) fn keys(map: &dashmap::DashMap<String, Held, RandomState>) -> (r: Vec<String>)
    ensures
        crate::walk::names(r@).no_duplicates(),
        crate::walk::names(r@).to_set() == held(*map).dom(),
{
    map.iter().map(|entry| entry.key().clone()).collect()
}

} // verus!
