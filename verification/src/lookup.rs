//! Search for symbols by a text that their names need not contain as it is.

use crate::fuzzy::{
    are_best, best, fuzzy_score_of, law_best_are_different, law_best_first,
    law_none_better_left_out, rank, rank_of, scores_of,
};
use crate::located::{all_located, definition_url, located_views, LocatedSymbol, LocatedView};
use crate::protocol::{
    completion_item_views, symbol_information_views, CompletionItem, CompletionItemView, Location,
    LocationView, Position, Range, SymbolInformation, SymbolInformationView,
};
use crate::search::{law_line_count, line_feeds, lines, lines_from};
use crate::symbols::{symbol_views, Symbol, SymbolView};
use std::path::PathBuf;
use vstd::prelude::*;

verus! {

/// Whether there is a file that shows the definition of a symbol.
pub open spec fn is_shown(symbol: LocatedView) -> bool {
    symbol.uri is Some && symbol.symbol.info.definition is Some
}

/// The index of the last line of a definition, as far as 32 bits can tell it.
pub open spec fn last_line(definition: Seq<char>) -> u32 {
    let count = lines_from(definition, 0).len();
    if count == 0 {
        0
    } else if count - 1 <= u32::MAX {
        (count - 1) as u32
    } else {
        u32::MAX
    }
}

/// The lines of a definition, up to the start of the last.
pub open spec fn definition_range(definition: Seq<char>) -> Range {
    Range {
        start: Position { line: 0, character: 0 },
        end: Position { line: last_line(definition), character: 0 },
    }
}

/// What a search tells of a symbol that it found.
pub open spec fn information_on(symbol: LocatedView) -> SymbolInformationView {
    SymbolInformationView {
        name: symbol.symbol.name,
        location: LocationView {
            uri: symbol.uri->0,
            range: definition_range(symbol.symbol.info.definition->0),
        },
    }
}

/// The ranks of symbols: only those whose definition is shown have one.
pub open spec fn shown_ranks(
    query: Seq<char>,
    symbols: Seq<LocatedView>,
    scores: Seq<Option<u32>>,
) -> Seq<Option<u32>> {
    Seq::new(
        symbols.len(),
        |i: int|
            if is_shown(symbols[i]) {
                rank_of(scores[i], query, symbols[i].symbol.name)
            } else {
                None
            },
    )
}

/// The symbols at the indices `items`.
pub open spec fn information_on_items(symbols: Seq<LocatedView>, items: Seq<usize>) -> Seq<
    SymbolInformationView,
> {
    items.map_values(|i: usize| information_on(symbols[i as int]))
}

/// Whether `found` are the best of the symbols that match, the best first.
pub open spec fn are_best_symbols(
    query: Seq<char>,
    symbols: Seq<LocatedView>,
    scores: Seq<Option<u32>>,
    found: Seq<SymbolInformationView>,
) -> bool {
    exists|items: Seq<usize>| #[trigger]
        are_best(shown_ranks(query, symbols, scores), items) && found == information_on_items(
            symbols,
            items,
        )
}

fn find_last_line(definition: &str) -> (r: u32)
    ensures
        r == last_line(definition@),
{
    let count: usize = lines(definition).len();
    if count == 0 {
        0
    } else if (count - 1) as u64 <= u32::MAX as u64 {
        (count - 1) as u32
    } else {
        u32::MAX
    }
}

/// The best of the symbols that match, where `scores` are the scores of their names.
pub fn find_symbols(
    query: &str,
    symbols: &Vec<LocatedSymbol>,
    scores: &Vec<Option<u32>>,
) -> (r: Vec<SymbolInformation>)
    requires
        scores@.len() == symbols@.len(),
    ensures
        are_best_symbols(
            query@,
            located_views(symbols@),
            scores@,
            symbol_information_views(r@),
        ),
{
    let ghost views = located_views(symbols@);
    let ghost all_ranks = shown_ranks(query@, views, scores@);
    let mut ranks: Vec<Option<u32>> = Vec::with_capacity(symbols.len());
    let mut i: usize = 0;
    while i < symbols.len()
        invariant
            i <= symbols.len(),
            scores@.len() == symbols@.len(),
            views == located_views(symbols@),
            all_ranks == shown_ranks(query@, views, scores@),
            ranks@ == all_ranks.take(i as int),
        decreases symbols.len() - i,
    {
        proof {
            assert(all_ranks.take(i + 1) =~= all_ranks.take(i as int).push(all_ranks[i as int]));
            assert(views[i as int] == symbols@[i as int]@);
        }
        let symbol = &symbols[i];
        if symbol.uri.is_some() && symbol.symbol.info.definition.is_some() {
            ranks.push(rank(scores[i], query, symbol.symbol.name.as_str()));
        } else {
            ranks.push(None);
        }
        i += 1;
    }
    proof {
        assert(all_ranks.take(i as int) =~= all_ranks);
    }
    let items = best(&ranks);
    proof {
        law_best_first(all_ranks, items@);
    }
    let mut r: Vec<SymbolInformation> = Vec::with_capacity(items.len());
    let ghost all = information_on_items(views, items@);
    let mut k: usize = 0;
    while k < items.len()
        invariant
            k <= items.len(),
            views == located_views(symbols@),
            all == information_on_items(views, items@),
            all_ranks == shown_ranks(query@, views, scores@),
            forall|j: int|
                0 <= j < items@.len() ==> (#[trigger] items@[j]) < symbols@.len()
                    && all_ranks[items@[j] as int] is Some,
            symbol_information_views(r@) == all.take(k as int),
        decreases items.len() - k,
    {
        let symbol = &symbols[items[k]];
        let ghost old_r = r@;
        proof {
            assert(all_ranks[items@[k as int] as int] is Some);
            assert(views[items@[k as int] as int] == symbol@);
        }
        if let (Some(uri), Some(definition)) = (&symbol.uri, &symbol.symbol.info.definition) {
            let range = Range {
                start: Position { line: 0, character: 0 },
                end: Position { line: find_last_line(definition.as_str()), character: 0 },
            };
            r.push(
                SymbolInformation {
                    name: symbol.symbol.name.clone(),
                    location: Location { uri: uri.clone(), range },
                },
            );
        }
        proof {
            assert(symbol_information_views(r@) =~= symbol_information_views(old_r).push(
                all[k as int],
            ));
            assert(all.take(k + 1) =~= all.take(k as int).push(all[k as int]));
        }
        k += 1;
    }
    proof {
        assert(all.take(k as int) =~= all);
    }
    r
}

/// What is told of a symbol: an empty text where nothing is known.
pub open spec fn told(symbol: SymbolView) -> Seq<char> {
    match symbol.info.hover {
        Some(hover) => hover,
        None => seq![],
    }
}

/// What is told of a symbol.
pub fn tell(symbol: &Symbol) -> (r: String)
    ensures
        r@ == told(symbol@),
{
    match &symbol.info.hover {
        Some(hover) => hover.clone(),
        None => String::new(),
    }
}

/// A symbol as a completion.
pub open spec fn completion_of(symbol: SymbolView) -> CompletionItemView {
    CompletionItemView { label: symbol.name, documentation: told(symbol) }
}

/// The ranks of the names of symbols.
pub open spec fn name_ranks(
    query: Seq<char>,
    symbols: Seq<SymbolView>,
    scores: Seq<Option<u32>>,
) -> Seq<Option<u32>> {
    Seq::new(symbols.len(), |i: int| rank_of(scores[i], query, symbols[i].name))
}

/// The symbols at the indices `items`, as completions.
pub open spec fn completions_of_items(symbols: Seq<SymbolView>, items: Seq<usize>) -> Seq<
    CompletionItemView,
> {
    items.map_values(|i: usize| completion_of(symbols[i as int]))
}

/// Whether `found` are the best of the symbols that match, the best first.
pub open spec fn are_best_completions(
    query: Seq<char>,
    symbols: Seq<SymbolView>,
    scores: Seq<Option<u32>>,
    found: Seq<CompletionItemView>,
) -> bool {
    exists|items: Seq<usize>| #[trigger]
        are_best(name_ranks(query, symbols, scores), items) && found == completions_of_items(
            symbols,
            items,
        )
}

/// The best of the symbols that match, where `scores` are the scores of their names.
pub fn find_completions(
    query: &str,
    symbols: &Vec<Symbol>,
    scores: &Vec<Option<u32>>,
) -> (r: Vec<CompletionItem>)
    requires
        scores@.len() == symbols@.len(),
    ensures
        are_best_completions(
            query@,
            symbol_views(symbols@),
            scores@,
            completion_item_views(r@),
        ),
{
    let ghost views = symbol_views(symbols@);
    let ghost all_ranks = name_ranks(query@, views, scores@);
    let mut ranks: Vec<Option<u32>> = Vec::with_capacity(symbols.len());
    let mut i: usize = 0;
    while i < symbols.len()
        invariant
            i <= symbols.len(),
            scores@.len() == symbols@.len(),
            views == symbol_views(symbols@),
            all_ranks == name_ranks(query@, views, scores@),
            ranks@ == all_ranks.take(i as int),
        decreases symbols.len() - i,
    {
        proof {
            assert(all_ranks.take(i + 1) =~= all_ranks.take(i as int).push(all_ranks[i as int]));
            assert(views[i as int] == symbols@[i as int]@);
        }
        ranks.push(rank(scores[i], query, symbols[i].name.as_str()));
        i += 1;
    }
    proof {
        assert(all_ranks.take(i as int) =~= all_ranks);
    }
    let items = best(&ranks);
    proof {
        law_best_first(all_ranks, items@);
    }
    let mut r: Vec<CompletionItem> = Vec::with_capacity(items.len());
    let ghost all = completions_of_items(views, items@);
    let mut k: usize = 0;
    while k < items.len()
        invariant
            k <= items.len(),
            views == symbol_views(symbols@),
            all == completions_of_items(views, items@),
            forall|j: int| 0 <= j < items@.len() ==> (#[trigger] items@[j]) < symbols@.len(),
            completion_item_views(r@) == all.take(k as int),
        decreases items.len() - k,
    {
        let symbol = &symbols[items[k]];
        let ghost old_r = r@;
        r.push(CompletionItem { label: symbol.name.clone(), documentation: tell(symbol) });
        proof {
            assert(completion_item_views(r@) =~= completion_item_views(old_r).push(all[k as int]));
            assert(all.take(k + 1) =~= all.take(k as int).push(all[k as int]));
        }
        k += 1;
    }
    proof {
        assert(all.take(k as int) =~= all);
    }
    r
}

/// The lines of a definition reach from its first character to the start of its last line: so many
/// line feeds stand before its last character. An empty definition has one place only.
pub proof fn law_definition_range(definition: Seq<char>)
    ensures
        ({
            let range = definition_range(definition);
            &&& range.start.line == 0 && range.start.character == 0
            &&& range.end.character == 0
            &&& definition.len() == 0 ==> range.end.line == 0
            &&& definition.len() > 0 && line_feeds(definition.drop_last()) <= u32::MAX
                ==> range.end.line == line_feeds(definition.drop_last())
            &&& definition.len() > 0 && line_feeds(definition.drop_last()) > u32::MAX
                ==> range.end.line == u32::MAX
        }),
{
    law_line_count(definition);
}

/// What is told of a symbol is the text that is known of it, character for character, or an empty
/// text.
pub proof fn law_known_text_is_told(symbol: SymbolView)
    ensures
        symbol.info.hover is Some ==> told(symbol) == symbol.info.hover->0,
        symbol.info.hover is None ==> told(symbol).len() == 0,
{
}

/// The points of a name that a query matches: its score, and a thousand more if it starts with the
/// query.
pub open spec fn points(query: Seq<char>, name: Seq<char>) -> int {
    fuzzy_score_of(query, name)->0 + if query.is_prefix_of(name) {
        1000int
    } else {
        0
    }
}

/// Of the names that may be told and have a score, `items` are a hundred at most, each once, and a
/// name is left out only where there are a hundred.
pub open spec fn are_matches(
    query: Seq<char>,
    names: Seq<Seq<char>>,
    may_be_told: Seq<bool>,
    items: Seq<usize>,
) -> bool {
    &&& items.len() <= 100
    &&& items.no_duplicates()
    &&& forall|k: int|
        0 <= k < items.len() ==> (#[trigger] items[k]) < names.len() && may_be_told[items[k] as int]
            && fuzzy_score_of(query, names[items[k] as int]) is Some
    &&& forall|i: int|
        0 <= i < names.len() && may_be_told[i] && fuzzy_score_of(query, #[trigger] names[i]) is Some
            ==> items.contains(i as usize) || items.len() == 100
}

/// None of `items` has fewer points than a later one, or than a name that is left out.
pub open spec fn have_most_points(
    query: Seq<char>,
    names: Seq<Seq<char>>,
    may_be_told: Seq<bool>,
    items: Seq<usize>,
) -> bool {
    &&& forall|j: int, k: int|
        0 <= j <= k < items.len() ==> points(query, names[(#[trigger] items[j]) as int]) >= points(
            query,
            names[(#[trigger] items[k]) as int],
        )
    &&& forall|i: int, k: int|
        0 <= i < names.len() && may_be_told[i] && fuzzy_score_of(query, #[trigger] names[i]) is Some
            && !items.contains(i as usize) && 0 <= k < items.len() ==> points(
            query,
            names[(#[trigger] items[k]) as int],
        ) >= points(query, names[i])
}

/// Whether the points of all names fit in 32 bits.
pub open spec fn points_fit(query: Seq<char>, names: Seq<Seq<char>>) -> bool {
    forall|i: int|
        0 <= i < names.len() && fuzzy_score_of(query, #[trigger] names[i]) is Some
            ==> fuzzy_score_of(query, names[i])->0 + 1000 <= u32::MAX
}

proof fn lemma_best_are_matches(
    query: Seq<char>,
    names: Seq<Seq<char>>,
    may_be_told: Seq<bool>,
    ranks: Seq<Option<u32>>,
    items: Seq<usize>,
)
    requires
        names.len() == ranks.len() <= usize::MAX,
        forall|i: int|
            0 <= i < ranks.len() ==> #[trigger] ranks[i] == if may_be_told[i] {
                rank_of(fuzzy_score_of(query, names[i]), query, names[i])
            } else {
                None
            },
        are_best(ranks, items),
    ensures
        are_matches(query, names, may_be_told, items),
        points_fit(query, names) ==> have_most_points(query, names, may_be_told, items),
{
    law_best_first(ranks, items);
    law_best_are_different(ranks, items);
    assert forall|i: int|
        0 <= i < names.len() && may_be_told[i] && fuzzy_score_of(query, #[trigger] names[i]) is Some
            && !items.contains(i as usize) implies items.len() == 100 && forall|k: int|
        0 <= k < items.len() ==> ranks[(#[trigger] items[k]) as int]->0 >= ranks[i]->0 by {
        assert(ranks[i] is Some);
        law_none_better_left_out(ranks, items, i as usize);
    }
    assert forall|k: int| 0 <= k < items.len() implies (#[trigger] items[k]) < names.len()
        && may_be_told[items[k] as int] && fuzzy_score_of(
        query,
        names[items[k] as int],
    ) is Some by {
        assert(ranks[items[k] as int] is Some);
    }
    if points_fit(query, names) {
        assert forall|k: int| 0 <= k < items.len() implies ranks[(#[trigger] items[k]) as int]->0
            == points(query, names[items[k] as int]) by {
            assert(fuzzy_score_of(query, names[items[k] as int]) is Some);
        }
        assert forall|i: int|
            0 <= i < names.len() && may_be_told[i] && fuzzy_score_of(
                query,
                #[trigger] names[i],
            ) is Some implies ranks[i]->0 == points(query, names[i]) by {
            assert(ranks[i] is Some);
        }
    }
}

/// The names of symbols.
pub open spec fn names_of(symbols: Seq<SymbolView>) -> Seq<Seq<char>> {
    symbols.map_values(|s: SymbolView| s.name)
}

/// Completions are symbols of the list whose names have a score, those with the most points, each
/// told with the text that is known of it. The indices of the symbols are given.
pub proof fn law_completions_match(
    query: Seq<char>,
    symbols: Seq<SymbolView>,
    found: Seq<CompletionItemView>,
) -> (items: Seq<usize>)
    requires
        symbols.len() <= usize::MAX,
        are_best_completions(query, symbols, scores_of(query, symbols), found),
    ensures
        found.len() == items.len(),
        ({
            let all = Seq::new(symbols.len(), |i: int| true);
            &&& are_matches(query, names_of(symbols), all, items)
            &&& points_fit(query, names_of(symbols)) ==> have_most_points(
                query,
                names_of(symbols),
                all,
                items,
            )
        }),
        forall|k: int|
            0 <= k < found.len() ==> (#[trigger] found[k]).label == symbols[items[k] as int].name
                && found[k].documentation == told(symbols[items[k] as int]),
{
    let ranks = name_ranks(query, symbols, scores_of(query, symbols));
    let items = choose|items: Seq<usize>| #[trigger]
        are_best(ranks, items) && found == completions_of_items(symbols, items);
    let all = Seq::new(symbols.len(), |i: int| true);
    lemma_best_are_matches(query, names_of(symbols), all, ranks, items);
    items
}

/// What a search finds are symbols of the list whose names have a score and whose definitions are
/// shown, those with the most points, each told with the file that shows its definition and with
/// the lines of it. The indices of the symbols are given.
pub proof fn law_found_symbols_match(
    query: Seq<char>,
    cache_dir: PathBuf,
    symbols: Seq<SymbolView>,
    found: Seq<SymbolInformationView>,
) -> (items: Seq<usize>)
    requires
        symbols.len() <= usize::MAX,
        are_best_symbols(
            query,
            all_located(cache_dir, symbols),
            scores_of(query, symbols),
            found,
        ),
    ensures
        found.len() == items.len(),
        ({
            let shown = Seq::new(
                symbols.len(),
                |i: int|
                    symbols[i].info.definition is Some && definition_url(
                        cache_dir,
                        symbols[i],
                    ) is Some,
            );
            &&& are_matches(query, names_of(symbols), shown, items)
            &&& points_fit(query, names_of(symbols)) ==> have_most_points(
                query,
                names_of(symbols),
                shown,
                items,
            )
        }),
        forall|k: int|
            0 <= k < found.len() ==> (#[trigger] found[k]).name == symbols[items[k] as int].name
                && Some(found[k].location.uri) == definition_url(
                cache_dir,
                symbols[items[k] as int],
            ) && found[k].location.range == definition_range(
                symbols[items[k] as int].info.definition->0,
            ),
{
    let located_symbols = all_located(cache_dir, symbols);
    let ranks = shown_ranks(query, located_symbols, scores_of(query, symbols));
    let items = choose|items: Seq<usize>| #[trigger]
        are_best(ranks, items) && found == information_on_items(located_symbols, items);
    let shown = Seq::new(
        symbols.len(),
        |i: int|
            symbols[i].info.definition is Some && definition_url(cache_dir, symbols[i]) is Some,
    );
    lemma_best_are_matches(query, names_of(symbols), shown, ranks, items);
    assert forall|k: int| 0 <= k < found.len() implies (#[trigger] found[k]).name
        == symbols[items[k] as int].name && Some(found[k].location.uri) == definition_url(
        cache_dir,
        symbols[items[k] as int],
    ) && found[k].location.range == definition_range(
        symbols[items[k] as int].info.definition->0,
    ) by {
        assert(shown[items[k] as int]);
    }
    items
}

} // verus!
