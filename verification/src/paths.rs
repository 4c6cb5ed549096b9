//! The paths of files.

use crate::symbols::text_view;
use async_lsp::lsp_types::Url;
use std::path::PathBuf;
use vstd::prelude::*;

verus! {

#[verifier::external_type_specification]
#[verifier::external_body]
pub struct ExPathBuf(std::path::PathBuf);

/// The path of the file that a URL names, as `Url::to_file_path` has it; `None` where it names
/// none.
pub uninterp spec fn file_path_of(url: Seq<char>) -> Option<PathBuf>;

/// `Url::to_file_path`. Which URLs name a file is a matter of the operating system that the
/// library is built for. What comes of a text that is no URL is `None`.
#[verifier::external_body]
pub(crate) fn file_path(url: &str) -> (r: Option<PathBuf>)
    ensures
        r == file_path_of(url@),
{
    Url::parse(url).ok()?.to_file_path().ok()
}

/// The simple form of a path, as `dunce::simplified` has it.
pub uninterp spec fn simplified_path_of(path: PathBuf) -> PathBuf;

/// `dunce::simplified`. What it simplifies are paths of one operating system; where the library
/// is built for another, a path stays as it is.
#[verifier::external_body]
pub(crate) fn simplified_path(path: PathBuf) -> (r: PathBuf)
    ensures
        r == simplified_path_of(path),
{
    dunce::simplified(&path).to_path_buf()
}

/// The URL of the file at a path, as `Url::from_file_path` has it; `None` for a path that is not
/// absolute.
pub uninterp spec fn path_text_of(path: PathBuf) -> Option<Seq<char>>;

/// `Url::from_file_path`: a text for a path, whatever the characters of the path are. Which paths
/// are absolute and how they are written is a matter of the operating system that the library is
/// built for; every such URL has the scheme `file`.
#[verifier::external_body]
pub(crate) fn path_text(path: &PathBuf) -> (r: Option<String>)
    ensures
        text_view(r) == path_text_of(*path),
        r is Some ==> "file://"@.is_prefix_of(r->0@),
{
    Url::from_file_path(path).ok().map(String::from)
}

/// `Path::join`, named by the folder and the name.
pub uninterp spec fn joined_path_of(dir: PathBuf, name: Seq<char>) -> PathBuf;

/// `Path::join`: the path of a file in a folder. How the two are put together is a matter of the
/// operating system that the library is built for.
#[verifier::external_body]
pub(crate) fn joined_path(dir: &PathBuf, name: &str) -> (r: PathBuf)
    ensures
        r == joined_path_of(*dir, name@),
{
    dir.join(name)
}

} // verus!
