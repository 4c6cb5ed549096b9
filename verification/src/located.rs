//! Symbols whose definitions are shown in files of their own.

use crate::paths::{joined_path, joined_path_of, path_text, path_text_of};
use crate::symbols::{symbol_views, text_view, Symbol, SymbolView};
use std::path::PathBuf;
use vstd::prelude::*;

verus! {

/// A symbol and the URL of the file that shows its definition, if it has one.
#[derive(Debug)]
pub struct LocatedSymbol {
    pub symbol: Symbol,
    pub uri: Option<String>,
}

/// What a `LocatedSymbol` says.
pub struct LocatedView {
    pub symbol: SymbolView,
    pub uri: Option<Seq<char>>,
}

impl View for LocatedSymbol {
    type V = LocatedView;

    open spec fn view(&self) -> LocatedView {
        LocatedView { symbol: self.symbol@, uri: text_view(self.uri) }
    }
}

/// The views of a list of symbols.
pub open spec fn located_views(symbols: Seq<LocatedSymbol>) -> Seq<LocatedView> {
    symbols.map_values(|s: LocatedSymbol| s@)
}

/// The URL of the file that shows the definition of a symbol: its name and the extension, in the
/// folder for definitions. There is none if the two do not make an absolute path.
pub open spec fn definition_url(cache_dir: PathBuf, symbol: SymbolView) -> Option<Seq<char>> {
    match symbol.info.definition_file_ext {
        Some(ext) => path_text_of(joined_path_of(cache_dir, symbol.name + ext)),
        None => None,
    }
}

/// A symbol with the URL of its file.
pub open spec fn located(cache_dir: PathBuf, symbol: SymbolView) -> LocatedView {
    LocatedView { symbol, uri: definition_url(cache_dir, symbol) }
}

/// Symbols with the URLs of their files.
pub open spec fn all_located(cache_dir: PathBuf, symbols: Seq<SymbolView>) -> Seq<LocatedView> {
    symbols.map_values(|s: SymbolView| located(cache_dir, s))
}

/// The URL of the file that shows the definition of a symbol.
pub fn definition_uri(cache_dir: &PathBuf, symbol: &Symbol) -> (r: Option<String>)
    ensures
        text_view(r) == definition_url(*cache_dir, symbol@),
{
    match &symbol.info.definition_file_ext {
        Some(ext) => {
            let mut file_name = symbol.name.clone();
            file_name.append(ext.as_str());
            path_text(&joined_path(cache_dir, file_name.as_str()))
        },
        None => None,
    }
}

/// Adds the URLs of their files to symbols.
pub fn locate(cache_dir: &PathBuf, symbols: Vec<Symbol>) -> (r: Vec<LocatedSymbol>)
    ensures
        located_views(r@) == all_located(*cache_dir, symbol_views(symbols@)),
{
    let ghost all = all_located(*cache_dir, symbol_views(symbols@));
    let mut r: Vec<LocatedSymbol> = Vec::with_capacity(symbols.len());
    let mut i: usize = 0;
    while i < symbols.len()
        invariant
            i <= symbols.len(),
            all == all_located(*cache_dir, symbol_views(symbols@)),
            located_views(r@) == all.take(i as int),
        decreases symbols.len() - i,
    {
        let uri = definition_uri(cache_dir, &symbols[i]);
        let ghost old_r = r@;
        r.push(LocatedSymbol { symbol: symbols[i].clone(), uri });
        proof {
            assert(located_views(r@) =~= located_views(old_r).push(all[i as int]));
            assert(all.take(i + 1) =~= all.take(i as int).push(all[i as int]));
        }
        i += 1;
    }
    proof {
        assert(all.take(i as int) =~= all);
    }
    r
}

/// Whether `url` is that of the file of one of the symbols.
pub open spec fn is_definition_file(symbols: Seq<LocatedView>, url: Seq<char>) -> bool {
    exists|i: int| 0 <= i < symbols.len() && (#[trigger] symbols[i]).uri == Some(url)
}

/// Whether `url` is that of the file of one of the symbols.
pub fn shows_definition(symbols: &Vec<LocatedSymbol>, url: &str) -> (r: bool)
    ensures
        r == is_definition_file(located_views(symbols@), url@),
{
    let ghost views = located_views(symbols@);
    let wanted = url.to_owned();
    let mut i: usize = 0;
    while i < symbols.len()
        invariant
            i <= symbols.len(),
            views == located_views(symbols@),
            wanted@ == url@,
            forall|j: int| 0 <= j < i ==> (#[trigger] views[j]).uri != Some(url@),
        decreases symbols.len() - i,
    {
        if let Some(uri) = &symbols[i].uri {
            if *uri == wanted {
                proof {
                    assert(views[i as int].uri == Some(url@));
                }
                return true;
            }
        }
        i += 1;
    }
    false
}

} // verus!
