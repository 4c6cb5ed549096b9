//! The requests that the server answers.

use crate::error::Error;
use crate::fuzzy::{
    all_can_be_scored, are_best, can_be_scored, can_score, law_best_first, scores, scores_of,
};
use crate::gather::law_gathered_in_any_order;
use crate::ident::{get_ident_on_line, ident_on_line, is_word, law_word_under_cursor, IdentPattern};
use crate::located::{
    all_located, definition_url, is_definition_file, locate, located, located_views,
    shows_definition, LocatedView,
};
use crate::lookup::{
    are_best_completions, are_best_symbols, completion_of, completions_of_items, find_completions,
    find_symbols, information_on_items, name_ranks, shown_ranks, tell, told,
};
use crate::occurrences::{
    all_occurrences, find_document_symbols, folded, is_in_document_order,
    law_document_ranges_in_any_order, law_document_symbols_in_order,
};
use crate::protocol::{
    completion_item_views, document_symbol_views, symbol_information_views, CompletionItem,
    CompletionItemView, DocumentSymbol, DocumentSymbolView, DocumentView, Location, LocationView,
    Position, Range, SymbolInformation, SymbolInformationView, TextDocument,
};
use crate::references::{
    find_references, group_views, law_all_references_are_told, law_group_is_of_symbol,
    reference_groups, references_in, search_for, written_locations, GroupView, ReferenceGroup,
    Search,
};
use crate::rope::{line_count, line_text, rope_get_line};
use crate::search::{trim, trimmed_end, trimmed_start};
use crate::server::{
    answer_view, definition_file, has_definition, is_case_sensitive, is_symbol_at, is_symbol_for,
    law_symbol_for_identifier, symbol_view, Server,
};
use crate::state::{capabilities_known, looked_up, path_of, text_of, StateView};
use crate::symbols::{lists, symbol_views, text_view, Symbol, SymbolView};
use crate::text::{
    byte_len, chars_before_unit, lemma_chars_before_bound, lemma_on_char, split_at_char, unit_pos,
    utf16_offset_to_utf8, utf8_len,
};
use crate::tokens::{
    decoded_place, is_sorted_by_start, law_sorted_ranges_stay, law_tokens_decode, not_behind,
    semantic_tokens_of, token_of, tokens_of, wrapped_difference, SemanticToken,
};
use vstd::prelude::*;

pub mod laws;

verus! {

/// Whether `url` is that of a file that shows the definition of a symbol.
pub open spec fn shows_symbol(state: StateView, url: Seq<char>) -> bool {
    exists|name: Seq<char>| #[trigger]
        state.symbols.dom().contains(name) && definition_url(
            state.cache_dir,
            SymbolView { name, info: state.symbols[name] },
        ) == Some(url)
}

/// Whether the symbols of a document are told: to a client that shows them as a tree, and of a
/// file that shows a definition.
pub open spec fn tells_symbols(state: StateView, document: DocumentView) -> bool {
    ||| state.client_capabilities is Some && state.client_capabilities->0.hierarchical_symbols
    ||| shows_symbol(state, document.url)
}

/// Whether `r` are the symbols that occur in a document, in the order in which they start.
pub open spec fn are_document_symbols(
    state: StateView,
    document: DocumentView,
    r: Result<Option<Seq<DocumentSymbolView>>, Error>,
) -> bool {
    if !tells_symbols(state, document) {
        r == Ok::<Option<Seq<DocumentSymbolView>>, Error>(None)
    } else {
        match text_of(state, document) {
            Err(e) => r == Err::<Option<Seq<DocumentSymbolView>>, Error>(e),
            Ok(text) => {
                &&& r is Ok
                &&& r->Ok_0 is Some
                &&& exists|list: Seq<SymbolView>| #[trigger]
                    lists(state.symbols, list) && is_in_document_order(
                        all_occurrences(text, list, is_case_sensitive(state.config)),
                        r->Ok_0->0,
                    )
            },
        }
    }
}

/// The state after the symbols of a document have been asked for.
pub open spec fn symbols_asked(state: StateView, document: DocumentView) -> StateView {
    if tells_symbols(capabilities_known(state), document) {
        looked_up(capabilities_known(state), document)
    } else {
        capabilities_known(state)
    }
}

/// The stretches of symbols in a document.
pub open spec fn symbol_ranges(symbols: Seq<DocumentSymbolView>) -> Seq<Range> {
    symbols.map_values(|s: DocumentSymbolView| s.range)
}

/// The view of a list of symbols in a document that may be missing.
pub open spec fn document_symbols_view(r: Result<Option<Vec<DocumentSymbol>>, Error>) -> Result<
    Option<Seq<DocumentSymbolView>>,
    Error,
> {
    match r {
        Ok(Some(symbols)) => Ok(Some(document_symbol_views(symbols@))),
        Ok(None) => Ok(None),
        Err(e) => Err(e),
    }
}

/// Whether `tokens` are the tokens of the symbols in a document.
pub open spec fn are_tokens_of(
    symbols: Result<Option<Seq<DocumentSymbolView>>, Error>,
    token_type: u32,
    tokens: Result<Seq<SemanticToken>, Error>,
) -> bool {
    match symbols {
        Err(e) => tokens == Err::<Seq<SemanticToken>, Error>(e),
        Ok(None) => tokens == Ok::<Seq<SemanticToken>, Error>(seq![]),
        Ok(Some(symbols)) => tokens is Ok && exists|sorted: Seq<Range>| #[trigger]
            is_sorted_by_start(symbol_ranges(symbols), sorted) && tokens->Ok_0 == tokens_of(
                sorted,
                token_type,
            ),
    }
}

/// The view of a list of tokens.
pub open spec fn tokens_view(r: Result<Vec<SemanticToken>, Error>) -> Result<
    Seq<SemanticToken>,
    Error,
> {
    match r {
        Ok(tokens) => Ok(tokens@),
        Err(e) => Err(e),
    }
}

/// The stretches of symbols in a document.
pub fn ranges_of(symbols: &Vec<DocumentSymbol>) -> (r: Vec<Range>)
    ensures
        r@ == symbol_ranges(document_symbol_views(symbols@)),
{
    let ghost all = symbol_ranges(document_symbol_views(symbols@));
    let mut r: Vec<Range> = Vec::with_capacity(symbols.len());
    let mut i: usize = 0;
    while i < symbols.len()
        invariant
            i <= symbols.len(),
            all == symbol_ranges(document_symbol_views(symbols@)),
            r@ == all.take(i as int),
        decreases symbols.len() - i,
    {
        proof {
            assert(all.take(i + 1) =~= all.take(i as int).push(all[i as int]));
        }
        r.push(symbols[i].range);
        i += 1;
    }
    proof {
        assert(all.take(i as int) =~= all);
    }
    r
}

/// A list of the symbols holds a file exactly if the table does.
proof fn lemma_shows_symbol(state: StateView, list: Seq<SymbolView>, url: Seq<char>)
    requires
        lists(state.symbols, list),
    ensures
        is_definition_file(all_located(state.cache_dir, list), url) <==> shows_symbol(state, url),
{
    let all = all_located(state.cache_dir, list);
    if is_definition_file(all, url) {
        let i = choose|i: int| 0 <= i < all.len() && (#[trigger] all[i]).uri == Some(url);
        assert(all[i] == located(state.cache_dir, list[i]));
        assert(list[i] == (SymbolView { name: list[i].name, info: state.symbols[list[i].name] }));
        assert(state.symbols.dom().contains(list[i].name));
    }
    if shows_symbol(state, url) {
        let name = choose|name: Seq<char>| #[trigger]
            state.symbols.dom().contains(name) && definition_url(
                state.cache_dir,
                SymbolView { name, info: state.symbols[name] },
            ) == Some(url);
        let i = choose|i: int| 0 <= i < list.len() && (#[trigger] list[i]).name == name;
        assert(list[i] == (SymbolView { name, info: state.symbols[name] }));
        assert(all[i].uri == Some(url));
    }
}

/// The view of groups of references that may be missing.
pub open spec fn reference_answer_view(r: Result<Option<Vec<ReferenceGroup>>, Error>) -> Result<
    Option<Seq<GroupView>>,
    Error,
> {
    match r {
        Ok(Some(groups)) => Ok(Some(group_views(groups@))),
        Ok(None) => Ok(None),
        Err(e) => Err(e),
    }
}

/// Whether `r` are the references to a symbol, in the definitions of all symbols.
pub open spec fn are_references_to(
    state: StateView,
    symbol: Result<Option<SymbolView>, Error>,
    r: Result<Option<Seq<GroupView>>, Error>,
) -> bool {
    match symbol {
        Err(e) => r == Err::<Option<Seq<GroupView>>, Error>(e),
        Ok(None) => r == Ok::<Option<Seq<GroupView>>, Error>(None),
        Ok(Some(symbol)) => exists|list: Seq<SymbolView>| #[trigger]
            lists(state.symbols, list) && r == Ok::<Option<Seq<GroupView>>, Error>(
                Some(
                    reference_groups(
                        all_located(state.cache_dir, list),
                        search_for(symbol.name, is_case_sensitive(state.config)),
                    ),
                ),
            ),
    }
}

/// Whether the names of all symbols can be scored.
pub open spec fn names_can_be_scored(state: StateView, query: Seq<char>) -> bool {
    forall|name: Seq<char>| #[trigger]
        state.symbols.dom().contains(name) ==> can_be_scored(query, name)
}

proof fn lemma_names_can_be_scored(state: StateView, list: Seq<SymbolView>, query: Seq<char>)
    requires
        lists(state.symbols, list),
    ensures
        all_can_be_scored(query, list) <==> names_can_be_scored(state, query),
{
    if all_can_be_scored(query, list) {
        assert forall|name: Seq<char>| #[trigger]
            state.symbols.dom().contains(name) implies can_be_scored(query, name) by {
            let i = choose|i: int| 0 <= i < list.len() && (#[trigger] list[i]).name == name;
            assert(can_be_scored(query, list[i].name));
        }
    }
    if names_can_be_scored(state, query) {
        assert forall|i: int| 0 <= i < list.len() implies can_be_scored(
            query,
            (#[trigger] list[i]).name,
        ) by {
            assert(state.symbols.dom().contains(list[i].name));
        }
    }
}

/// What a search for symbols found.
#[derive(Debug)]
pub struct WorkspaceSymbols {
    pub found: Vec<SymbolInformation>,
    /// The symbols whose definitions are to be shown at once, one for each that was found; none
    /// if the client asks again for those that it needs.
    pub emit: Vec<Symbol>,
}

/// Whether `found` are the symbols that a search for `query` finds.
pub open spec fn are_symbols_found(
    state: StateView,
    query: Seq<char>,
    found: Seq<SymbolInformationView>,
) -> bool {
    exists|list: Seq<SymbolView>| #[trigger]
        lists(state.symbols, list) && list.len() <= usize::MAX && are_best_symbols(
            query,
            all_located(state.cache_dir, list),
            scores_of(query, list),
            found,
        )
}

/// Whether `emit` are the symbols that the names of those found stand for.
pub open spec fn are_to_emit(
    state: StateView,
    found: Seq<SymbolInformationView>,
    emit: Seq<SymbolView>,
) -> bool {
    if state.client_capabilities is Some && state.client_capabilities->0.resolves_symbols {
        emit.len() == 0
    } else {
        &&& emit.len() == found.len()
        &&& forall|i: int|
            0 <= i < found.len() ==> is_symbol_for(
                state,
                found[i].name,
                Some(#[trigger] emit[i]),
            )
    }
}

/// The text that symbols are searched by.
pub open spec fn search_text(query: Seq<char>) -> Seq<char> {
    trimmed_end(trimmed_start(query))
}

/// Whether a search can be made: an empty one, or one for a text that can be scored in the names
/// of all symbols.
pub open spec fn can_search(state: StateView, query: Seq<char>) -> bool {
    search_text(query).len() > 0 ==> names_can_be_scored(state, search_text(query))
}

/// Whether `r` is what a search for `query`, which is not empty, finds, and `after` the state
/// then.
pub open spec fn are_workspace_symbols(
    state: StateView,
    query: Seq<char>,
    r: Result<Option<WorkspaceSymbols>, Error>,
    after: StateView,
) -> bool {
    &&& r is Ok
    &&& r->Ok_0 is Some
    &&& are_symbols_found(
        state,
        search_text(query),
        symbol_information_views(r->Ok_0->0.found@),
    )
    &&& are_to_emit(
        after,
        symbol_information_views(r->Ok_0->0.found@),
        symbol_views(r->Ok_0->0.emit@),
    )
    &&& after == capabilities_known(state)
}

/// At a place of an open document where the name of a symbol stands as a whole word, the symbol
/// is found: with the cursor in the word, before it or directly behind it.
pub proof fn law_symbol_under_cursor(
    state: StateView,
    document: DocumentView,
    text: Seq<char>,
    line: u32,
    a: int,
    b: int,
    k: int,
    r: Result<Option<SymbolView>, Error>,
)
    requires
        text_of(state, document) == Ok::<Seq<char>, Error>(text),
        line < line_count(text),
        is_word(line_text(text, line as int), a, b),
        a <= k <= b,
        unit_pos(line_text(text, line as int), k) <= u32::MAX,
        state.symbols.dom().contains(line_text(text, line as int).subrange(a, b)),
        is_symbol_at(
            state,
            document,
            Position { line, character: unit_pos(line_text(text, line as int), k) as u32 },
            r,
        ),
    ensures
        r is Ok,
        r->Ok_0 is Some,
        state.symbols.dom().contains(r->Ok_0->0.name),
        state.symbols[r->Ok_0->0.name] == r->Ok_0->0.info,
        folded(r->Ok_0->0.name, is_case_sensitive(state.config)) == folded(
            line_text(text, line as int).subrange(a, b),
            is_case_sensitive(state.config),
        ),
        hover_of(r) == Ok::<Option<Seq<char>>, Error>(Some(told(r->Ok_0->0))),
        defined(r) == if has_definition(r->Ok_0->0) {
            r
        } else {
            Err(Error::NoDefinition)
        },
{
    let name = line_text(text, line as int).subrange(a, b);
    law_word_under_cursor(line_text(text, line as int), a, b, k);
    law_symbol_for_identifier(state, name, r->Ok_0);
}

/// The file that shows a definition is one whose symbols are told, to whatever client.
pub proof fn law_definition_file_tells_symbols(
    state: StateView,
    name: Seq<char>,
    document: DocumentView,
)
    requires
        state.symbols.dom().contains(name),
        definition_file(
            state.cache_dir,
            SymbolView { name, info: state.symbols[name] },
        ) is Ok,
        definition_file(
            state.cache_dir,
            SymbolView { name, info: state.symbols[name] },
        )->Ok_0.uri == Some(document.url),
    ensures
        tells_symbols(state, document),
{
}

/// A search finds symbols that are known and have a definition: each is told with the URL of the
/// file that shows its definition.
pub proof fn law_found_symbols_are_shown(
    state: StateView,
    list: Seq<SymbolView>,
    query: Seq<char>,
    found: Seq<SymbolInformationView>,
    k: int,
)
    requires
        list.len() <= usize::MAX,
        lists(state.symbols, list),
        are_best_symbols(query, all_located(state.cache_dir, list), scores_of(query, list), found),
        0 <= k < found.len(),
    ensures
        state.symbols.dom().contains(found[k].name),
        ({
            let symbol = SymbolView { name: found[k].name, info: state.symbols[found[k].name] };
            &&& has_definition(symbol)
            &&& definition_file(state.cache_dir, symbol)->Ok_0.uri == Some(found[k].location.uri)
        }),
{
    let all = all_located(state.cache_dir, list);
    let ranks = shown_ranks(query, all, scores_of(query, list));
    let items = choose|items: Seq<usize>| #[trigger]
        are_best(ranks, items) && found == information_on_items(all, items);
    law_best_first(ranks, items);
    assert(items[k] < list.len());
    let i = items[k] as int;
    assert(ranks[i] is Some);
    assert(all[i] == located(state.cache_dir, list[i]));
    assert(found[k].name == list[i].name);
    assert(list[i] == (SymbolView { name: list[i].name, info: state.symbols[list[i].name] }));
}

/// Completions are symbols that are known, told with what is known of them.
pub proof fn law_completions_are_known(
    state: StateView,
    list: Seq<SymbolView>,
    query: Seq<char>,
    found: Seq<CompletionItemView>,
    k: int,
)
    requires
        list.len() <= usize::MAX,
        lists(state.symbols, list),
        are_best_completions(query, list, scores_of(query, list), found),
        0 <= k < found.len(),
    ensures
        state.symbols.dom().contains(found[k].label),
        found[k].documentation == told(
            SymbolView { name: found[k].label, info: state.symbols[found[k].label] },
        ),
{
    let ranks = name_ranks(query, list, scores_of(query, list));
    let items = choose|items: Seq<usize>| #[trigger]
        are_best(ranks, items) && found == completions_of_items(list, items);
    law_best_first(ranks, items);
    assert(items[k] < list.len());
    let i = items[k] as int;
    assert(found[k] == completion_of(list[i]));
    assert(list[i] == (SymbolView { name: list[i].name, info: state.symbols[list[i].name] }));
}

/// Each group of references is of a symbol that is known and has a definition, and lies in the
/// file that shows it.
pub proof fn law_reference_groups_are_shown(
    state: StateView,
    list: Seq<SymbolView>,
    search: Search,
    k: int,
)
    requires
        lists(state.symbols, list),
        0 <= k < reference_groups(all_located(state.cache_dir, list), search).len(),
    ensures
        ({
            let group = reference_groups(all_located(state.cache_dir, list), search)[k];
            &&& state.symbols.dom().contains(group.symbol.name)
            &&& state.symbols[group.symbol.name] == group.symbol.info
            &&& has_definition(group.symbol)
            &&& group.locations.len() > 0
            &&& forall|i: int|
                0 <= i < group.locations.len() ==> Some((#[trigger] group.locations[i]).uri)
                    == definition_file(state.cache_dir, group.symbol)->Ok_0.uri
        }),
{
    let all = all_located(state.cache_dir, list);
    let i = law_group_is_of_symbol(all, search, k);
    let group = reference_groups(all, search)[k];
    assert(all[i] == located(state.cache_dir, list[i]));
    assert(state.symbols.dom().contains(list[i].name));
}

/// The references to a symbol depend on the symbol alone: two answers, whatever place of whatever
/// document was asked for and in whatever order the symbols were walked, have the same locations
/// in some order, once the definitions are written.
pub proof fn law_references_depend_on_symbol(
    state: StateView,
    first: SymbolView,
    second: SymbolView,
    a: Result<Option<Seq<GroupView>>, Error>,
    b: Result<Option<Seq<GroupView>>, Error>,
    written_a: Seq<bool>,
    written_b: Seq<bool>,
)
    requires
        first.name == second.name,
        are_references_to(state, Ok(Some(first)), a),
        are_references_to(state, Ok(Some(second)), b),
        a is Ok && a->Ok_0 is Some ==> forall|i: int|
            0 <= i < a->Ok_0->0.len() ==> #[trigger] written_a[i],
        b is Ok && b->Ok_0 is Some ==> forall|i: int|
            0 <= i < b->Ok_0->0.len() ==> #[trigger] written_b[i],
    ensures
        a is Ok,
        a->Ok_0 is Some,
        b is Ok,
        b->Ok_0 is Some,
        written_locations(a->Ok_0->0, written_a).to_multiset() == written_locations(
            b->Ok_0->0,
            written_b,
        ).to_multiset(),
{
    let search = search_for(first.name, is_case_sensitive(state.config));
    let list_a = choose|list: Seq<SymbolView>| #[trigger]
        lists(state.symbols, list) && a == Ok::<Option<Seq<GroupView>>, Error>(
            Some(reference_groups(all_located(state.cache_dir, list), search)),
        );
    let list_b = choose|list: Seq<SymbolView>| #[trigger]
        lists(state.symbols, list) && b == Ok::<Option<Seq<GroupView>>, Error>(
            Some(reference_groups(all_located(state.cache_dir, list), search)),
        );
    let all_a = all_located(state.cache_dir, list_a);
    let all_b = all_located(state.cache_dir, list_b);
    law_all_references_are_told(all_a, search, written_a);
    law_all_references_are_told(all_b, search, written_b);
    lemma_located_list(state, list_a);
    lemma_located_list(state, list_b);
    law_gathered_in_any_order(
        all_a,
        all_b,
        |symbol: LocatedView| references_in(symbol, search),
    );
}

/// A list of the symbols with their files holds those of the table, each once.
proof fn lemma_located_list(state: StateView, list: Seq<SymbolView>)
    requires
        lists(state.symbols, list),
    ensures
        all_located(state.cache_dir, list).no_duplicates(),
        forall|symbol: LocatedView|
            all_located(state.cache_dir, list).contains(symbol) <==> {
                &&& state.symbols.dom().contains(symbol.symbol.name)
                &&& symbol.symbol.info == state.symbols[symbol.symbol.name]
                &&& symbol == located(state.cache_dir, symbol.symbol)
            },
{
    let all = all_located(state.cache_dir, list);
    assert forall|i: int, j: int| 0 <= i < all.len() && 0 <= j < all.len() && i != j implies all[i]
        != all[j] by {
        assert(all[i].symbol == list[i] && all[j].symbol == list[j]);
        if i < j {
            assert(list[i].name != list[j].name);
        } else {
            assert(list[j].name != list[i].name);
        }
    }
    assert forall|symbol: LocatedView|
        all.contains(symbol) <==> {
            &&& state.symbols.dom().contains(symbol.symbol.name)
            &&& symbol.symbol.info == state.symbols[symbol.symbol.name]
            &&& symbol == located(state.cache_dir, symbol.symbol)
        } by {
        if all.contains(symbol) {
            let i = choose|i: int| 0 <= i < all.len() && all[i] == symbol;
            assert(symbol == located(state.cache_dir, list[i]));
            assert(state.symbols.dom().contains(list[i].name));
        }
        if state.symbols.dom().contains(symbol.symbol.name) && symbol.symbol.info
            == state.symbols[symbol.symbol.name] && symbol == located(
            state.cache_dir,
            symbol.symbol,
        ) {
            let i = choose|i: int|
                0 <= i < list.len() && (#[trigger] list[i]).name == symbol.symbol.name;
            assert(list[i] == symbol.symbol);
            assert(all[i] == symbol);
        }
    }
}

/// The tokens of a document tell its symbols, whichever answer they are compared with: a client
/// that reads them finds, one by one and in the same order, where each symbol starts and how long
/// it is.
pub proof fn law_tokens_tell_document_symbols(
    state: StateView,
    document: DocumentView,
    symbols: Seq<DocumentSymbolView>,
    answer: Result<Option<Seq<DocumentSymbolView>>, Error>,
    token_type: u32,
    tokens: Result<Seq<SemanticToken>, Error>,
)
    requires
        are_document_symbols(state, document, Ok(Some(symbols))),
        are_document_symbols(state, document, answer),
        are_tokens_of(answer, token_type, tokens),
    ensures
        tokens is Ok,
        tokens->Ok_0.len() == symbols.len(),
        forall|i: int|
            #![trigger tokens->Ok_0[i]]
            0 <= i < symbols.len() ==> {
                &&& decoded_place(tokens->Ok_0, i) == (
                    symbols[i].range.start.line as int,
                    symbols[i].range.start.character as int,
                )
                &&& tokens->Ok_0[i].length == wrapped_difference(
                    symbols[i].range.end.character,
                    symbols[i].range.start.character,
                )
                &&& tokens->Ok_0[i].token_type == token_type
                &&& tokens->Ok_0[i].token_modifiers_bitset == 0
            },
{
    law_document_ranges_are_unique(state, document, symbols, answer->Ok_0->0);
    let text = text_of(state, document)->Ok_0;
    let list = choose|list: Seq<SymbolView>| #[trigger]
        lists(state.symbols, list) && is_in_document_order(
            all_occurrences(text, list, is_case_sensitive(state.config)),
            symbols,
        );
    let found = all_occurrences(text, list, is_case_sensitive(state.config));
    let ranges = symbol_ranges(symbols);
    assert forall|i: int, j: int| 0 <= i <= j < ranges.len() implies not_behind(
        (#[trigger] ranges[i]).start,
        (#[trigger] ranges[j]).start,
    ) by {
        law_document_symbols_in_order(found, symbols, i, j);
    }
    let sorted = choose|sorted: Seq<Range>| #[trigger]
        is_sorted_by_start(ranges, sorted) && tokens->Ok_0 == tokens_of(sorted, token_type);
    law_sorted_ranges_stay(ranges, sorted);
    assert forall|i: int|
        #![trigger tokens->Ok_0[i]]
        0 <= i < symbols.len() implies {
        &&& sorted[i] == symbols[i].range
        &&& decoded_place(tokens->Ok_0, i) == (
            symbols[i].range.start.line as int,
            symbols[i].range.start.character as int,
        )
        &&& tokens->Ok_0[i] == token_of(sorted, i, token_type)
    } by {
        law_tokens_decode(ranges, sorted, token_type, i);
    }
}

/// What is told of the places of symbols in a document does not depend on the order in which the
/// symbols are walked: two answers of one state have the same ranges.
pub proof fn law_document_ranges_are_unique(
    state: StateView,
    document: DocumentView,
    a: Seq<DocumentSymbolView>,
    b: Seq<DocumentSymbolView>,
)
    requires
        are_document_symbols(state, document, Ok(Some(a))),
        are_document_symbols(state, document, Ok(Some(b))),
    ensures
        symbol_ranges(a) == symbol_ranges(b),
{
    let text = text_of(state, document)->Ok_0;
    let case_sensitive = is_case_sensitive(state.config);
    let list_a = choose|list: Seq<SymbolView>| #[trigger]
        lists(state.symbols, list) && is_in_document_order(
            all_occurrences(text, list, case_sensitive),
            a,
        );
    let list_b = choose|list: Seq<SymbolView>| #[trigger]
        lists(state.symbols, list) && is_in_document_order(
            all_occurrences(text, list, case_sensitive),
            b,
        );
    lemma_list(state, list_a);
    lemma_list(state, list_b);
    law_document_ranges_in_any_order(text, list_a, list_b, case_sensitive, a, b);
    assert(symbol_ranges(a) =~= symbol_ranges(b));
}

/// A list of the symbols holds those of the table, each once.
proof fn lemma_list(state: StateView, list: Seq<SymbolView>)
    requires
        lists(state.symbols, list),
    ensures
        list.no_duplicates(),
        forall|symbol: SymbolView|
            list.contains(symbol) <==> state.symbols.dom().contains(symbol.name) && symbol.info
                == state.symbols[symbol.name],
{
    assert forall|i: int, j: int| 0 <= i < list.len() && 0 <= j < list.len() && i
        != j implies list[i] != list[j] by {
        if i < j {
            assert(list[i].name != list[j].name);
        } else {
            assert(list[j].name != list[i].name);
        }
    }
    assert forall|symbol: SymbolView|
        list.contains(symbol) <==> state.symbols.dom().contains(symbol.name) && symbol.info
            == state.symbols[symbol.name] by {
        if list.contains(symbol) {
            let i = choose|i: int| 0 <= i < list.len() && list[i] == symbol;
            assert(state.symbols.dom().contains(list[i].name));
        }
        if state.symbols.dom().contains(symbol.name) && symbol.info
            == state.symbols[symbol.name] {
            let i = choose|i: int| 0 <= i < list.len() && (#[trigger] list[i]).name == symbol.name;
            assert(list[i] == symbol);
        }
    }
}

/// The text that completions are searched by: the identifier that ends at the cursor, if it has
/// three bytes or more.
pub open spec fn completion_text(line: Seq<char>, character: u32) -> Option<Seq<char>> {
    let ident = ident_on_line(
        line.take(chars_before_unit(line, character as int) as int),
        character as int,
    );
    if ident is Some && utf8_len(ident->0) >= 3 {
        ident
    } else {
        None
    }
}

/// The text that completions are searched by.
fn find_completion_text(pattern: &IdentPattern, line: &str, position: Position) -> (r: Option<
    String,
>)
    ensures
        text_view(r) == completion_text(line@, position.character),
{
    let offset: usize = match utf16_offset_to_utf8(line, position.character as usize) {
        Some(offset) => offset,
        None => {
            return None;
        },
    };
    proof {
        lemma_chars_before_bound(line@, position.character as int);
        lemma_on_char(line@, chars_before_unit(line@, position.character as int) as int);
    }
    let before = split_at_char(line, offset).0;
    match get_ident_on_line(pattern, before, position) {
        Some(ident) => if byte_len(ident.as_str()) < 3 {
            None
        } else {
            Some(ident)
        },
        None => None,
    }
}

/// To look up a document again changes nothing.
proof fn lemma_looked_up_again(state: StateView, document: DocumentView)
    ensures
        looked_up(looked_up(state, document), document) == looked_up(state, document),
        text_of(looked_up(state, document), document) == text_of(state, document),
{
    if path_of(state, document) is Ok {
        let path = path_of(state, document)->Ok_0;
        let paths = state.url_to_path.insert(document.url, path);
        assert(paths.insert(document.url, path) =~= paths);
    }
}

/// Whether `found` are the completions that a search for `query` finds.
pub open spec fn are_completions_found(
    state: StateView,
    query: Seq<char>,
    found: Seq<CompletionItemView>,
) -> bool {
    exists|list: Seq<SymbolView>| #[trigger]
        lists(state.symbols, list) && list.len() <= usize::MAX && are_best_completions(
            query,
            list,
            scores_of(query, list),
            found,
        )
}

/// The view of completions that may be missing.
pub open spec fn completion_answer_view(r: Result<Option<Vec<CompletionItem>>, Error>) -> Result<
    Option<Seq<CompletionItemView>>,
    Error,
> {
    match r {
        Ok(Some(items)) => Ok(Some(completion_item_views(items@))),
        Ok(None) => Ok(None),
        Err(e) => Err(e),
    }
}

/// Whether `r` are the completions of the identifier at a place of a document.
pub open spec fn are_completions(
    state: StateView,
    document: DocumentView,
    position: Position,
    r: Result<Option<Seq<CompletionItemView>>, Error>,
) -> bool {
    match text_of(state, document) {
        Err(_) => r == Ok::<Option<Seq<CompletionItemView>>, Error>(None),
        Ok(text) => if position.line >= line_count(text) {
            r == Err::<Option<Seq<CompletionItemView>>, Error>(Error::LineOutOfBounds)
        } else {
            match completion_text(line_text(text, position.line as int), position.character) {
                None => r == Ok::<Option<Seq<CompletionItemView>>, Error>(None),
                Some(query) => r is Ok && r->Ok_0 is Some && are_completions_found(
                    state,
                    query,
                    r->Ok_0->0,
                ),
            }
        },
    }
}

/// Whether the identifier at a place of a document can be completed: where there is one that is
/// long enough, it can be scored in the names of all symbols.
pub open spec fn can_complete(
    state: StateView,
    document: DocumentView,
    position: Position,
) -> bool {
    match text_of(state, document) {
        Err(_) => true,
        Ok(text) => position.line < line_count(text) ==> match completion_text(
            line_text(text, position.line as int),
            position.character,
        ) {
            None => true,
            Some(query) => names_can_be_scored(state, query),
        },
    }
}

/// What is told of a symbol, if there is one.
pub open spec fn hover_of(symbol: Result<Option<SymbolView>, Error>) -> Result<
    Option<Seq<char>>,
    Error,
> {
    match symbol {
        Ok(Some(symbol)) => Ok(Some(told(symbol))),
        Ok(None) => Ok(None),
        Err(e) => Err(e),
    }
}

/// The symbol whose definition is gone to: one without a definition is an error.
pub open spec fn defined(symbol: Result<Option<SymbolView>, Error>) -> Result<
    Option<SymbolView>,
    Error,
> {
    match symbol {
        Ok(Some(symbol)) => if has_definition(symbol) {
            Ok(Some(symbol))
        } else {
            Err(Error::NoDefinition)
        },
        _ => symbol,
    }
}

/// The start of the file that shows a definition.
pub fn definition_location(uri: String) -> (r: Location)
    ensures
        r@ == (LocationView {
            uri: uri@,
            range: Range {
                start: Position { line: 0, character: 0 },
                end: Position { line: 0, character: 0 },
            },
        }),
{
    let start = Position { line: 0, character: 0 };
    Location { uri, range: Range { start, end: start } }
}

impl Server {
    /// The symbols that occur in a document; `None` if they are not told.
    pub fn document_symbol(&mut self, document: &TextDocument) -> (r: Result<
        Option<Vec<DocumentSymbol>>,
        Error,
    >)
        ensures
            are_document_symbols(
                capabilities_known(old(self).state@),
                document@,
                document_symbols_view(r),
            ),
            final(self).state@ == symbols_asked(old(self).state@, document@),
    {
        self.state.init_capabilities();
        let ghost state = self.state@;
        let hierarchical = match self.state.client_capabilities() {
            Some(capabilities) => capabilities.hierarchical_symbols(),
            None => false,
        };
        let tell = if hierarchical {
            true
        } else {
            let list = self.state.all_symbols();
            proof {
                lemma_shows_symbol(state, symbol_views(list@), document.url@);
            }
            let located = locate(self.state.cache_dir(), list);
            shows_definition(&located, document.url.as_str())
        };
        if !tell {
            return Ok(None);
        }
        let case_sensitive = self.case_sensitive();
        let rope = match self.state.get_text_document(document) {
            Ok(rope) => rope,
            Err(e) => {
                return Err(e);
            },
        };
        let list = self.state.all_symbols();
        let symbols = find_document_symbols(self.state.ident(), &rope, &list, case_sensitive);
        proof {
            assert(lists(state.symbols, symbol_views(list@)));
        }
        Ok(Some(symbols))
    }

    /// The tokens of the symbols that occur in a document.
    pub fn semantic_tokens(&mut self, document: &TextDocument) -> (r: Result<
        Vec<SemanticToken>,
        Error,
    >)
        ensures
            match old(self).state@.token_type_highlight_idx {
                None => {
                    &&& tokens_view(r) == Ok::<Seq<SemanticToken>, Error>(seq![])
                    &&& final(self).state@ == old(self).state@
                },
                Some(token_type) => {
                    &&& exists|symbols: Result<Option<Seq<DocumentSymbolView>>, Error>| #[trigger]
                        are_document_symbols(
                            capabilities_known(old(self).state@),
                            document@,
                            symbols,
                        ) && are_tokens_of(symbols, token_type, tokens_view(r))
                    &&& final(self).state@ == symbols_asked(old(self).state@, document@)
                },
            },
    {
        let token_type: u32 = match self.state.token_type_highlight_idx() {
            Some(token_type) => token_type,
            None => {
                return Ok(Vec::new());
            },
        };
        let answer = self.document_symbol(document);
        let ghost told = document_symbols_view(answer);
        let r = match answer {
            Err(e) => Err(e),
            Ok(None) => Ok(Vec::new()),
            Ok(Some(symbols)) => {
                let ranges = ranges_of(&symbols);
                Ok(semantic_tokens_of(&ranges, token_type))
            },
        };
        proof {
            assert(are_document_symbols(capabilities_known(old(self).state@), document@, told));
            assert(are_tokens_of(told, token_type, tokens_view(r)));
        }
        r
    }

    /// The references to the symbol at a place of a document, in the definitions of symbols. The
    /// definition of each group is to be shown; `keep_written` then gives the answer.
    pub fn references(&mut self, document: &TextDocument, position: Position) -> (r: Result<
        Option<Vec<ReferenceGroup>>,
        Error,
    >)
        ensures
            exists|symbol: Result<Option<SymbolView>, Error>| #[trigger]
                is_symbol_at(old(self).state@, document@, position, symbol) && are_references_to(
                    old(self).state@,
                    symbol,
                    reference_answer_view(r),
                ),
            final(self).state@ == looked_up(old(self).state@, document@),
    {
        let ghost state = self.state@;
        let answer = self.get_symbol_on_text_document(document, position);
        let ghost found = answer_view(answer);
        proof {
            assert(is_symbol_at(state, document@, position, found));
        }
        let symbol = match answer {
            Err(e) => {
                let r = Err(e);
                proof {
                    assert(are_references_to(state, found, reference_answer_view(r)));
                }
                return r;
            },
            Ok(None) => {
                let r = Ok(None);
                proof {
                    assert(are_references_to(state, found, reference_answer_view(r)));
                }
                return r;
            },
            Ok(Some(symbol)) => symbol,
        };
        let list = self.state.all_symbols();
        let ghost views = symbol_views(list@);
        let located = locate(self.state.cache_dir(), list);
        let groups = find_references(
            self.state.ident(),
            &located,
            symbol.name.as_str(),
            self.case_sensitive(),
        );
        let r = Ok(Some(groups));
        proof {
            assert(lists(state.symbols, views));
            assert(are_references_to(state, found, reference_answer_view(r)));
        }
        r
    }

    /// The symbol whose definition a client asks for by its name.
    pub fn ws_symbol_resolve(&self, name: &str) -> (r: Result<Symbol, Error>)
        ensures
            exists|symbol: Option<SymbolView>| #[trigger]
                is_symbol_for(self.state@, name@, symbol) && match symbol {
                    Some(symbol) => r is Ok && r->Ok_0@ == symbol,
                    None => r == Err::<Symbol, Error>(Error::SymbolNotFound),
                },
    {
        let symbol = self.get_symbol(name);
        proof {
            assert(is_symbol_for(self.state@, name@, symbol_view(symbol)));
        }
        match symbol {
            Some(symbol) => Ok(symbol),
            None => Err(Error::SymbolNotFound),
        }
    }

    /// The symbols that match a query best; `None` for an empty query.
    pub fn ws_symbol(&mut self, query: &str) -> (r: Result<Option<WorkspaceSymbols>, Error>)
        requires
            can_search(old(self).state@, query@),
        ensures
            search_text(query@).len() == 0 ==> r == Ok::<Option<WorkspaceSymbols>, Error>(None)
                && final(self).state@ == old(self).state@,
            search_text(query@).len() > 0 ==> are_workspace_symbols(
                old(self).state@,
                query@,
                r,
                final(self).state@,
            ),
    {
        let text = trim(query);
        if text.unicode_len() == 0 {
            return Ok(None);
        }
        let ghost state = self.state@;
        let list = self.state.all_symbols();
        let ghost views = symbol_views(list@);
        proof {
            lemma_names_can_be_scored(state, views, text@);
        }
        let list_scores = scores(text, &list);
        let located = locate(self.state.cache_dir(), list);
        proof {
            assert(located_views(located@).len() == views.len());
        }
        let found = find_symbols(text, &located, &list_scores);
        let ghost found_views = symbol_information_views(found@);
        proof {
            assert(lists(state.symbols, views));
            assert(are_symbols_found(state, text@, found_views));
        }
        self.state.init_capabilities();
        let resolves = match self.state.client_capabilities() {
            Some(capabilities) => capabilities.resolves_symbols(),
            None => false,
        };
        let mut emit: Vec<Symbol> = Vec::new();
        if !resolves {
            let mut i: usize = 0;
            while i < found.len()
                invariant
                    i <= found.len(),
                    self.state@ == capabilities_known(state),
                    found_views == symbol_information_views(found@),
                    views.len() <= usize::MAX,
                    lists(state.symbols, views),
                    are_best_symbols(
                        text@,
                        all_located(state.cache_dir, views),
                        scores_of(text@, views),
                        found_views,
                    ),
                    emit@.len() == i,
                    forall|j: int|
                        0 <= j < i ==> is_symbol_for(
                            self.state@,
                            found_views[j].name,
                            Some(#[trigger] symbol_views(emit@)[j]),
                        ),
                decreases found.len() - i,
            {
                let symbol = self.get_symbol(found[i].name.as_str());
                proof {
                    law_found_symbols_are_shown(state, views, text@, found_views, i as int);
                    law_symbol_for_identifier(
                        self.state@,
                        found_views[i as int].name,
                        symbol_view(symbol),
                    );
                }
                let ghost old_emit = emit@;
                if let Some(symbol) = symbol {
                    emit.push(symbol);
                }
                proof {
                    assert forall|j: int| 0 <= j < i + 1 implies is_symbol_for(
                        self.state@,
                        found_views[j].name,
                        Some(#[trigger] symbol_views(emit@)[j]),
                    ) by {
                        if j < i {
                            assert(symbol_views(emit@)[j] == symbol_views(old_emit)[j]);
                        }
                    }
                }
                i += 1;
            }
        }
        Ok(Some(WorkspaceSymbols { found, emit }))
    }

    /// The symbols that match a query best, if it can be scored in all names; else `None`, and
    /// nothing is changed.
    pub fn try_ws_symbol(&mut self, query: &str) -> (r: Option<
        Result<Option<WorkspaceSymbols>, Error>,
    >)
        ensures
            r is Some <==> can_search(old(self).state@, query@),
            r is Some && search_text(query@).len() == 0 ==> r->0 == Ok::<
                Option<WorkspaceSymbols>,
                Error,
            >(None) && final(self).state@ == old(self).state@,
            r is Some && search_text(query@).len() > 0 ==> are_workspace_symbols(
                old(self).state@,
                query@,
                r->0,
                final(self).state@,
            ),
            r is None ==> final(self).state@ == old(self).state@,
    {
        let text = trim(query);
        let list = self.state.all_symbols();
        proof {
            lemma_names_can_be_scored(self.state@, symbol_views(list@), text@);
        }
        if text.unicode_len() > 0 && !can_score(text, &list) {
            return None;
        }
        Some(self.ws_symbol(query))
    }

    /// The symbol at a place of a document, whose definition is to be shown.
    pub fn definition(&mut self, document: &TextDocument, position: Position) -> (r: Result<
        Option<Symbol>,
        Error,
    >)
        ensures
            exists|symbol: Result<Option<SymbolView>, Error>| #[trigger]
                is_symbol_at(old(self).state@, document@, position, symbol) && answer_view(r)
                    == defined(symbol),
            final(self).state@ == looked_up(old(self).state@, document@),
    {
        let answer = self.get_symbol_on_text_document(document, position);
        let ghost found = answer_view(answer);
        proof {
            assert(is_symbol_at(old(self).state@, document@, position, found));
        }
        match answer {
            Err(e) => Err(e),
            Ok(None) => Ok(None),
            Ok(Some(symbol)) => if symbol.info.definition.is_some()
                && symbol.info.definition_file_ext.is_some() {
                Ok(Some(symbol))
            } else {
                Err(Error::NoDefinition)
            },
        }
    }

    /// The completions of the identifier at a place of a document; `None` where there is no
    /// document, or no identifier that is long enough.
    pub fn completion(&mut self, document: &TextDocument, position: Position) -> (r: Result<
        Option<Vec<CompletionItem>>,
        Error,
    >)
        requires
            can_complete(old(self).state@, document@, position),
        ensures
            are_completions(
                old(self).state@,
                document@,
                position,
                completion_answer_view(r),
            ),
            final(self).state@ == looked_up(old(self).state@, document@),
    {
        let ghost state = self.state@;
        let line = match self.state.get_text_document(document) {
            Ok(rope) => rope_get_line(&rope, position.line as usize),
            Err(_) => {
                return Ok(None);
            },
        };
        let line = match line {
            Some(line) => line,
            None => {
                return Err(Error::LineOutOfBounds);
            },
        };
        let ident = match find_completion_text(self.state.ident(), line.as_str(), position) {
            Some(ident) => ident,
            None => {
                return Ok(None);
            },
        };
        let list = self.state.all_symbols();
        let ghost views = symbol_views(list@);
        proof {
            lemma_names_can_be_scored(state, views, ident@);
        }
        let list_scores = scores(ident.as_str(), &list);
        let found = find_completions(ident.as_str(), &list, &list_scores);
        proof {
            assert(lists(state.symbols, views));
        }
        Ok(Some(found))
    }

    /// The completions of the identifier at a place of a document, if it can be scored in all
    /// names; else `None`.
    pub fn try_completion(&mut self, document: &TextDocument, position: Position) -> (r: Option<
        Result<Option<Vec<CompletionItem>>, Error>,
    >)
        ensures
            r is Some <==> can_complete(old(self).state@, document@, position),
            r is Some ==> are_completions(
                old(self).state@,
                document@,
                position,
                completion_answer_view(r->0),
            ),
            final(self).state@ == looked_up(old(self).state@, document@),
    {
        let ghost state = self.state@;
        if let Ok(rope) = self.state.get_text_document(document) {
            if let Some(line) = rope_get_line(&rope, position.line as usize) {
                let ident = find_completion_text(self.state.ident(), line.as_str(), position);
                if let Some(ident) = ident {
                    let list = self.state.all_symbols();
                    proof {
                        lemma_names_can_be_scored(state, symbol_views(list@), ident@);
                    }
                    if !can_score(ident.as_str(), &list) {
                        return None;
                    }
                }
            }
        }
        proof {
            lemma_looked_up_again(state, document@);
            assert(self.state@.symbols == state.symbols);
            assert(forall|query: Seq<char>|
                names_can_be_scored(self.state@, query) == names_can_be_scored(state, query));
        }
        Some(self.completion(document, position))
    }

    /// What is told of the symbol at a place of a document.
    pub fn hover(&mut self, document: &TextDocument, position: Position) -> (r: Result<
        Option<String>,
        Error,
    >)
        ensures
            exists|symbol: Result<Option<SymbolView>, Error>| #[trigger]
                is_symbol_at(old(self).state@, document@, position, symbol) && answer_view(r)
                    == hover_of(symbol),
            final(self).state@ == looked_up(old(self).state@, document@),
    {
        let answer = self.get_symbol_on_text_document(document, position);
        let ghost found = answer_view(answer);
        proof {
            assert(is_symbol_at(old(self).state@, document@, position, found));
        }
        match answer {
            Err(e) => Err(e),
            Ok(None) => Ok(None),
            Ok(Some(symbol)) => Ok(Some(tell(&symbol))),
        }
    }
}

} // verus!
