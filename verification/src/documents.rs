//! The documents that are open, and the paths that their URLs stand for.

use crate::rope::rope_text;
use dashmap::DashMap;
use ropey::Rope;
use vstd::prelude::*;

verus! {

/// The paths that URLs are known to stand for, each held as the URL of its file.
pub uninterp spec fn known_paths(paths: DashMap<String, String>) -> Map<Seq<char>, Seq<char>>;

/// `DashMap::new`: no path is known.
#[verifier::external_body]
pub(crate) fn paths_new() -> (r: DashMap<String, String>)
    ensures
        known_paths(r).dom() == Set::<Seq<char>>::empty(),
{
    DashMap::new()
}

/// `DashMap::insert`: the URL now stands for `path`, whatever it stood for before.
#[verifier::external_body]
pub(crate) fn paths_insert(paths: &mut DashMap<String, String>, url: String, path: String)
    ensures
        known_paths(*final(paths)) == known_paths(*old(paths)).insert(url@, path@),
{
    paths.insert(url, path);
}

/// `DashMap::get`: the path that the URL stands for.
#[verifier::external_body]
pub(crate) fn paths_get(paths: &DashMap<String, String>, url: &str) -> (r: Option<String>)
    ensures
        r is Some <==> known_paths(*paths).dom().contains(url@),
        r is Some ==> r->0@ == known_paths(*paths)[url@],
{
    paths.get(url).map(|path| path.value().clone())
}

/// The texts of the documents that are open, by path.
pub uninterp spec fn open_texts(documents: DashMap<String, Rope>) -> Map<Seq<char>, Seq<char>>;

/// `DashMap::new`: no document is open.
#[verifier::external_body]
pub(crate) fn documents_new() -> (r: DashMap<String, Rope>)
    ensures
        open_texts(r).dom() == Set::<Seq<char>>::empty(),
{
    DashMap::new()
}

/// `DashMap::insert`: the document has that text, whatever it had before.
#[verifier::external_body]
pub(crate) fn documents_insert(documents: &mut DashMap<String, Rope>, path: String, text: Rope)
    ensures
        open_texts(*final(documents)) == open_texts(*old(documents)).insert(
            path@,
            rope_text(text),
        ),
{
    documents.insert(path, text);
}

/// `DashMap::get`: a copy of the text of the document.
#[verifier::external_body]
pub(crate) fn documents_get(documents: &DashMap<String, Rope>, path: &str) -> (r: Option<Rope>)
    ensures
        r is Some <==> open_texts(*documents).dom().contains(path@),
        r is Some ==> rope_text(r->0) == open_texts(*documents)[path@],
{
    documents.get(path).map(|text| text.value().clone())
}

/// `DashMap::remove`: the document is not open.
#[verifier::external_body]
pub(crate) fn documents_remove(documents: &mut DashMap<String, Rope>, path: &str)
    ensures
        open_texts(*final(documents)) == open_texts(*old(documents)).remove(path@),
{
    documents.remove(path);
}

} // verus!
