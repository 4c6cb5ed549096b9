//! What holds of the answers to requests, told over texts, symbols and the configuration.

use crate::error::Error;
use crate::fuzzy::{can_be_scored, fuzzy_score_of, law_ordinary_texts_can_be_scored, scores_of};
use crate::ident::{
    ident_on_line, is_word, is_word_char, law_ident_at_any_cursor, law_word_at_cursor_is_whole,
    law_word_under_cursor, word_at, word_start,
};
use crate::located::{all_located, definition_url, located};
use crate::lookup::{
    are_best_completions, are_best_symbols, law_completions_match, law_definition_range,
    law_found_symbols_match, law_known_text_is_told, names_of, points, points_fit,
};
use crate::occurrences::{
    all_occurrences, is_in_document_order, is_plain_name, keeps_places,
    law_any_name_stands_at_occurrence, law_document_symbols_are_occurrences,
    law_document_symbols_are_told_once, law_document_symbols_in_order,
    law_name_stands_at_occurrence, law_occurrence_is_as_long_as_name,
    law_occurrence_where_any_name_stands, law_occurrence_where_name_stands, occurrences,
};
use crate::paths::{joined_path_of, path_text_of};
use crate::protocol::{
    completion_item_views, document_symbol_views, location_views, symbol_information_views,
    CompletionItem, CompletionItemView, DocumentSymbol, DocumentSymbolView, DocumentView, Position,
    SymbolInformationView,
};
use crate::references::{
    law_group_is_of_symbol, law_groups_are_of_different_symbols, law_name_stands_at_reference,
    law_reference_is_as_long_as_name, law_reference_where_name_stands, law_references_are_told_once,
    law_symbol_has_group, reference_groups, search_for, GroupView, ReferenceGroup,
};
use crate::requests::{
    are_completions, are_completions_found, are_document_symbols, are_references_to,
    are_symbols_found, are_tokens_of, are_workspace_symbols, can_complete, can_search,
    completion_answer_view, completion_text, defined, document_symbols_view, hover_of,
    law_tokens_tell_document_symbols, names_can_be_scored, reference_answer_view, search_text,
    shows_symbol, symbols_asked, tells_symbols, tokens_view, WorkspaceSymbols,
};
use crate::rope::{ends_line, line_count, line_text, lines_ended};
use crate::search::{is_white_space, law_trimmed, line_feeds, lowercase};
use crate::server::{answer_view, is_case_sensitive, is_symbol_at, is_symbol_for, law_case_of_names};
use crate::state::{capabilities_known, path_of, text_of, StateView};
use crate::symbols::{lists, symbol_views, Symbol, SymbolView};
use crate::text::{
    chars_before_unit, lemma_chars_before, lemma_chars_before_bound, unit_pos, utf16_len, utf8_len,
};
use crate::tokens::{wrapped_difference, SemanticToken};
use vstd::prelude::*;
use vstd::utf8::is_ascii_chars;

verus! {

/// At a place of an open document where a word stands, the symbol is found that the word stands
/// for: with the cursor in the word, before it or directly behind it. Unless the configuration says
/// that the case of letters makes no difference it is the symbol of that very name.
pub proof fn law_symbol_at_word(
    state: StateView,
    document: DocumentView,
    text: Seq<char>,
    line: u32,
    a: int,
    b: int,
    k: int,
    r: Result<Option<SymbolView>, Error>,
)
    requires
        text_of(state, document) == Ok::<Seq<char>, Error>(text),
        line < line_count(text),
        is_word(line_text(text, line as int), a, b),
        a <= k <= b,
        unit_pos(line_text(text, line as int), k) <= u32::MAX,
        is_symbol_at(
            state,
            document,
            Position { line, character: unit_pos(line_text(text, line as int), k) as u32 },
            r,
        ),
    ensures
        r is Ok,
        ({
            let word = line_text(text, line as int).subrange(a, b);
            let symbol = r->Ok_0;
            &&& state.config.case_sensitive is None || state.config.case_sensitive == Some(true)
                ==> {
                &&& symbol is Some <==> state.symbols.dom().contains(word)
                &&& symbol is Some ==> symbol->0.name == word
            }
            &&& state.config.case_sensitive == Some(false) ==> {
                &&& symbol is Some <==> exists|name: Seq<char>| #[trigger]
                    state.symbols.dom().contains(name) && lowercase(name) == lowercase(word)
                &&& symbol is Some ==> lowercase(symbol->0.name) == lowercase(word)
            }
            &&& symbol is Some ==> state.symbols.dom().contains(symbol->0.name)
                && state.symbols[symbol->0.name] == symbol->0.info
        }),
{
    let word = line_text(text, line as int).subrange(a, b);
    law_word_under_cursor(line_text(text, line as int), a, b, k);
    law_case_of_names(state, word, r->Ok_0);
}

/// A request about a place that can not be read is answered by an error: the document is not open,
/// or has no such line. Where no word is at the cursor, nothing is found.
pub proof fn law_nothing_at_place(
    state: StateView,
    document: DocumentView,
    position: Position,
    k: int,
    r: Result<Option<SymbolView>, Error>,
)
    requires
        is_symbol_at(state, document, position, r),
    ensures
        text_of(state, document) is Err ==> r == Err::<Option<SymbolView>, Error>(
            text_of(state, document)->Err_0,
        ),
        text_of(state, document) is Ok && position.line >= line_count(
            text_of(state, document)->Ok_0,
        ) ==> r == Err::<Option<SymbolView>, Error>(Error::LineOutOfBounds),
        text_of(state, document) is Ok && position.line < line_count(
            text_of(state, document)->Ok_0,
        ) ==> {
            let line = line_text(text_of(state, document)->Ok_0, position.line as int);
            &&& 0 <= k <= line.len()
            &&& k == 0 || unit_pos(line, k - 1) < position.character
            &&& k == line.len() || unit_pos(line, k) >= position.character
            &&& !(k > 0 && is_word_char(line[k - 1])) && !(k < line.len() && is_word_char(line[k]))
        } ==> r == Ok::<Option<SymbolView>, Error>(None),
{
    if text_of(state, document) is Ok {
        let line = line_text(text_of(state, document)->Ok_0, position.line as int);
        if 0 <= k <= line.len() && (k == 0 || unit_pos(line, k - 1) < position.character) && (k
            == line.len() || unit_pos(line, k) >= position.character) {
            law_ident_at_any_cursor(line, position.character as int, k, 0, 0);
        }
    }
}

/// What is told at a place is what is known of the symbol that is found there, character for
/// character; of one of which nothing is known an empty text is told. Where no symbol is found,
/// nothing is told; an error stays one.
pub proof fn law_hover_tells_what_is_known(
    state: StateView,
    document: DocumentView,
    position: Position,
    answer: Result<Option<Seq<char>>, Error>,
) -> (symbol: Result<Option<SymbolView>, Error>)
    requires
        exists|symbol: Result<Option<SymbolView>, Error>| #[trigger]
            is_symbol_at(state, document, position, symbol) && answer == hover_of(symbol),
    ensures
        is_symbol_at(state, document, position, symbol),
        match symbol {
            Ok(Some(symbol)) => {
                &&& answer is Ok
                &&& answer->Ok_0 is Some
                &&& symbol.info.hover is Some ==> answer->Ok_0->0 == symbol.info.hover->0
                &&& symbol.info.hover is None ==> answer->Ok_0->0.len() == 0
            },
            Ok(None) => answer == Ok::<Option<Seq<char>>, Error>(None),
            Err(e) => answer == Err::<Option<Seq<char>>, Error>(e),
        },
{
    choose|symbol: Result<Option<SymbolView>, Error>| #[trigger]
        is_symbol_at(state, document, position, symbol) && answer == hover_of(symbol)
}

/// The definition that is gone to at a place is that of the symbol that is found there, if it has
/// one and the extension of a file to show it; else the answer is an error. Where no symbol is
/// found there is none; an error stays one.
pub proof fn law_definition_is_of_symbol(
    state: StateView,
    document: DocumentView,
    position: Position,
    answer: Result<Option<SymbolView>, Error>,
) -> (symbol: Result<Option<SymbolView>, Error>)
    requires
        exists|symbol: Result<Option<SymbolView>, Error>| #[trigger]
            is_symbol_at(state, document, position, symbol) && answer == defined(symbol),
    ensures
        is_symbol_at(state, document, position, symbol),
        match symbol {
            Ok(Some(found)) => if found.info.definition is Some
                && found.info.definition_file_ext is Some {
                answer == symbol
            } else {
                answer == Err::<Option<SymbolView>, Error>(Error::NoDefinition)
            },
            _ => answer == symbol,
        },
{
    choose|symbol: Result<Option<SymbolView>, Error>| #[trigger]
        is_symbol_at(state, document, position, symbol) && answer == defined(symbol)
}

/// A symbol that a client asks for by its name is found if the name is known; that nothing is found
/// is an error.
pub proof fn law_symbol_is_resolved_by_name(
    state: StateView,
    name: Seq<char>,
    r: Result<SymbolView, Error>,
)
    requires
        exists|symbol: Option<SymbolView>| #[trigger]
            is_symbol_for(state, name, symbol) && match symbol {
                Some(symbol) => r == Ok::<SymbolView, Error>(symbol),
                None => r == Err::<SymbolView, Error>(Error::SymbolNotFound),
            },
    ensures
        state.symbols.dom().contains(name) ==> r is Ok,
        r is Ok ==> state.symbols.dom().contains(r->Ok_0.name) && r->Ok_0.info
            == state.symbols[r->Ok_0.name],
        r is Ok && state.config.case_sensitive != Some(false) ==> r->Ok_0.name == name,
        r is Ok && state.config.case_sensitive == Some(false) ==> lowercase(r->Ok_0.name)
            == lowercase(name),
        r is Err ==> r->Err_0 == Error::SymbolNotFound,
{
    let symbol = choose|symbol: Option<SymbolView>| #[trigger]
        is_symbol_for(state, name, symbol) && match symbol {
            Some(symbol) => r == Ok::<SymbolView, Error>(symbol),
            None => r == Err::<SymbolView, Error>(Error::SymbolNotFound),
        };
    law_case_of_names(state, name, symbol);
}

/// The symbols of a document are told to a client that shows them as a tree, and of a document that
/// is the file of a symbol: its name followed by its extension, in the folder for definitions. Else
/// none are told. A document that is not open is an error.
pub proof fn law_when_document_symbols_are_told(
    state: StateView,
    document: DocumentView,
    r: Result<Option<Seq<DocumentSymbolView>>, Error>,
)
    requires
        are_document_symbols(state, document, r),
    ensures
        r == Ok::<Option<Seq<DocumentSymbolView>>, Error>(None) <==> {
            let client = state.client_capabilities;
            &&& client is None || !client->0.hierarchical_symbols
            &&& forall|name: Seq<char>| #[trigger]
                state.symbols.dom().contains(name) ==> {
                    let ext = state.symbols[name].definition_file_ext;
                    ext is Some ==> path_text_of(joined_path_of(state.cache_dir, name + ext->0))
                        != Some(document.url)
                }
        },
        r is Err ==> text_of(state, document) == Err::<Seq<char>, Error>(r->Err_0),
        r is Ok && r->Ok_0 is Some ==> text_of(state, document) is Ok,
{
    if tells_symbols(state, document) && shows_symbol(state, document.url) {
        let name = choose|name: Seq<char>| #[trigger]
            state.symbols.dom().contains(name) && definition_url(
                state.cache_dir,
                SymbolView { name, info: state.symbols[name] },
            ) == Some(document.url);
        assert(state.symbols.dom().contains(name));
    } else {
        assert forall|name: Seq<char>| #[trigger]
            state.symbols.dom().contains(name) implies {
            let ext = state.symbols[name].definition_file_ext;
            ext is Some ==> path_text_of(joined_path_of(state.cache_dir, name + ext->0)) != Some(
                document.url,
            )
        } by {
            assert(definition_url(
                state.cache_dir,
                SymbolView { name, info: state.symbols[name] },
            ) != Some(document.url));
        }
    }
}

/// The answer holds the occurrences of a list of the symbols.
proof fn lemma_document_answer(
    state: StateView,
    document: DocumentView,
    symbols: Seq<DocumentSymbolView>,
) -> (list: Seq<SymbolView>)
    requires
        are_document_symbols(state, document, Ok(Some(symbols))),
    ensures
        text_of(state, document) is Ok,
        lists(state.symbols, list),
        is_in_document_order(
            all_occurrences(
                text_of(state, document)->Ok_0,
                list,
                is_case_sensitive(state.config),
            ),
            symbols,
        ),
{
    choose|list: Seq<SymbolView>| #[trigger]
        lists(state.symbols, list) && is_in_document_order(
            all_occurrences(
                text_of(state, document)->Ok_0,
                list,
                is_case_sensitive(state.config),
            ),
            symbols,
        )
}

/// The occurrence of a known name that a symbol of the answer is. Its index among those of the name
/// is given.
proof fn lemma_document_symbol(
    state: StateView,
    document: DocumentView,
    symbols: Seq<DocumentSymbolView>,
    k: int,
) -> (m: int)
    requires
        are_document_symbols(state, document, Ok(Some(symbols))),
        0 <= k < symbols.len(),
    ensures
        text_of(state, document) is Ok,
        state.symbols.dom().contains(symbols[k].name),
        ({
            let all = occurrences(
                text_of(state, document)->Ok_0,
                symbols[k].name,
                is_case_sensitive(state.config),
            );
            0 <= m < all.len() && all[m] == symbols[k].range
        }),
{
    let text = text_of(state, document)->Ok_0;
    let case_sensitive = is_case_sensitive(state.config);
    let list = lemma_document_answer(state, document, symbols);
    let symbol = symbols[k];
    assert(symbols.contains(symbol));
    law_document_symbols_are_occurrences(text, list, case_sensitive, symbols, symbol);
    let i = choose|i: int|
        0 <= i < list.len() && (#[trigger] list[i]).name == symbol.name && occurrences(
            text,
            symbol.name,
            case_sensitive,
        ).contains(symbol.range);
    assert(state.symbols.dom().contains(list[i].name));
    let all = occurrences(text, symbol.name, case_sensitive);
    choose|m: int| 0 <= m < all.len() && all[m] == symbol.range
}

/// A symbol that is told of a document is one that is known. Its range lies on one line and is as
/// long as its name, in bytes; where 32 bits can not tell the end, what they can tell of it is
/// told.
pub proof fn law_document_symbol_is_as_long_as_name(
    state: StateView,
    document: DocumentView,
    symbols: Seq<DocumentSymbolView>,
    k: int,
)
    requires
        are_document_symbols(state, document, Ok(Some(symbols))),
        0 <= k < symbols.len(),
    ensures
        state.symbols.dom().contains(symbols[k].name),
        ({
            let range = symbols[k].range;
            let end = range.start.character + utf8_len(symbols[k].name);
            &&& range.end.line == range.start.line
            &&& end <= u32::MAX ==> range.end.character == end
            &&& end > u32::MAX ==> range.end.character == end - 0x1_0000_0000
            &&& is_ascii_chars(symbols[k].name) ==> end == range.start.character
                + symbols[k].name.len()
        }),
{
    let m = lemma_document_symbol(state, document, symbols, k);
    law_occurrence_is_as_long_as_name(
        text_of(state, document)->Ok_0,
        symbols[k].name,
        is_case_sensitive(state.config),
        m,
    );
}

/// Where a symbol is told of a document, its name stands: on the line that the range says, so many
/// UTF-16 units behind the start of the line as the range says, and continued by a word character
/// of the line on neither side. The character at which the name stands and the one at which its
/// line starts are given. Where the configuration says that the case of letters makes no
/// difference, this is so of texts that are all ASCII.
pub proof fn law_document_symbol_stands_in_text(
    state: StateView,
    document: DocumentView,
    text: Seq<char>,
    symbols: Seq<DocumentSymbolView>,
    k: int,
) -> (place: (int, int))
    requires
        text_of(state, document) == Ok::<Seq<char>, Error>(text),
        are_document_symbols(state, document, Ok(Some(symbols))),
        0 <= k < symbols.len(),
        is_plain_name(symbols[k].name),
        state.config.case_sensitive == Some(false) ==> is_ascii_chars(text) && is_ascii_chars(
            symbols[k].name,
        ),
    ensures
        ({
            let (p, b) = place;
            let start = symbols[k].range.start;
            let name = symbols[k].name;
            let word = text.subrange(p, p + name.len());
            &&& 0 <= b <= p
            &&& p + name.len() <= text.len()
            &&& state.config.case_sensitive != Some(false) ==> word == name
            &&& lowercase(word) == lowercase(name)
            &&& start.line == lines_ended(text, p)
            &&& start.line == lines_ended(text, b)
            &&& b == 0 || ends_line(text, b - 1)
            &&& start.character == utf16_len(text.subrange(b, p))
            &&& is_word(line_text(text, start.line as int), p - b, p - b + name.len())
        }),
{
    let m = lemma_document_symbol(state, document, symbols, k);
    law_name_stands_at_occurrence(text, symbols[k].name, is_case_sensitive(state.config), m)
}

/// No symbol is missed: wherever a known name stands in the document, continued by a word character
/// of its line on neither side, the symbol is told, as far as 32 bits can tell the place. Its index
/// in the answer is given.
pub proof fn law_name_in_document_is_told(
    state: StateView,
    document: DocumentView,
    text: Seq<char>,
    symbols: Seq<DocumentSymbolView>,
    name: Seq<char>,
    p: int,
    b: int,
) -> (k: int)
    requires
        text_of(state, document) == Ok::<Seq<char>, Error>(text),
        are_document_symbols(state, document, Ok(Some(symbols))),
        state.symbols.dom().contains(name),
        is_plain_name(name),
        0 <= b <= p,
        p + name.len() <= text.len(),
        state.config.case_sensitive != Some(false) ==> text.subrange(p, p + name.len()) == name,
        state.config.case_sensitive == Some(false) ==> is_ascii_chars(text) && is_ascii_chars(name)
            && lowercase(text.subrange(p, p + name.len())) == lowercase(name),
        b == 0 || ends_line(text, b - 1),
        lines_ended(text, b) == lines_ended(text, p) <= u32::MAX,
        utf8_len(text.subrange(b, p)) <= u32::MAX,
        is_word(line_text(text, lines_ended(text, p) as int), p - b, p - b + name.len()),
    ensures
        0 <= k < symbols.len(),
        symbols[k].name == name,
        symbols[k].range.start.line == lines_ended(text, p),
        symbols[k].range.start.character == utf16_len(text.subrange(b, p)),
{
    let m = law_occurrence_where_name_stands(text, name, is_case_sensitive(state.config), p, b);
    lemma_occurrence_is_told(state, document, symbols, name, m)
}

/// Whatever a name is made of, it stands in the document where its symbol is told, and the
/// identifier there has as many bytes. `searched` and `needle` are the text and the name, in lower
/// case if the configuration says that the case of letters makes no difference. The character at
/// which the name stands and the one at which its line starts are given.
pub proof fn law_any_document_symbol_stands_in_text(
    state: StateView,
    document: DocumentView,
    text: Seq<char>,
    symbols: Seq<DocumentSymbolView>,
    searched: Seq<char>,
    needle: Seq<char>,
    k: int,
) -> (place: (int, int))
    requires
        text_of(state, document) == Ok::<Seq<char>, Error>(text),
        are_document_symbols(state, document, Ok(Some(symbols))),
        0 <= k < symbols.len(),
        state.config.case_sensitive != Some(false) ==> searched == text && needle
            == symbols[k].name,
        state.config.case_sensitive == Some(false) ==> searched == lowercase(text) && needle
            == lowercase(symbols[k].name),
        keeps_places(text, searched),
    ensures
        ({
            let (p, b) = place;
            let start = symbols[k].range.start;
            let ident = ident_on_line(line_text(text, start.line as int), start.character as int);
            &&& 0 <= b <= p
            &&& p + needle.len() <= searched.len()
            &&& searched.subrange(p, p + needle.len()) == needle
            &&& start.line == lines_ended(text, p)
            &&& start.line == lines_ended(text, b)
            &&& b == 0 || ends_line(text, b - 1)
            &&& start.character == utf16_len(text.subrange(b, p))
            &&& ident is Some
            &&& utf8_len(ident->0) == utf8_len(symbols[k].name)
        }),
{
    let m = lemma_document_symbol(state, document, symbols, k);
    law_any_name_stands_at_occurrence(
        text,
        symbols[k].name,
        is_case_sensitive(state.config),
        searched,
        needle,
        m,
    )
}

/// No symbol is missed, whatever its name is made of: where the name stands in the document, no
/// earlier place at which it stands overlaps, and the identifier there has as many bytes, the
/// symbol is told, as far as 32 bits can tell the place. Its index in the answer is given.
pub proof fn law_any_name_in_document_is_told(
    state: StateView,
    document: DocumentView,
    text: Seq<char>,
    symbols: Seq<DocumentSymbolView>,
    name: Seq<char>,
    searched: Seq<char>,
    needle: Seq<char>,
    p: int,
    b: int,
) -> (k: int)
    requires
        text_of(state, document) == Ok::<Seq<char>, Error>(text),
        are_document_symbols(state, document, Ok(Some(symbols))),
        state.symbols.dom().contains(name),
        state.config.case_sensitive != Some(false) ==> searched == text && needle == name,
        state.config.case_sensitive == Some(false) ==> searched == lowercase(text) && needle
            == lowercase(name),
        keeps_places(text, searched),
        utf8_len(name) <= u32::MAX,
        0 <= b <= p,
        p + needle.len() <= searched.len(),
        searched.subrange(p, p + needle.len()) == needle,
        forall|q: int|
            0 <= q < p < q + needle.len() ==> #[trigger] searched.subrange(q, q + needle.len())
                != needle,
        b == 0 || ends_line(text, b - 1),
        lines_ended(text, b) == lines_ended(text, p) <= u32::MAX,
        utf8_len(text.subrange(b, p)) <= u32::MAX,
        ({
            let line = line_text(text, lines_ended(text, p) as int);
            let ident = ident_on_line(line, utf16_len(text.subrange(b, p)) as int);
            ident is Some && utf8_len(ident->0) == utf8_len(name)
        }),
    ensures
        0 <= k < symbols.len(),
        symbols[k].name == name,
        symbols[k].range.start.line == lines_ended(text, p),
        symbols[k].range.start.character == utf16_len(text.subrange(b, p)),
{
    let case_sensitive = is_case_sensitive(state.config);
    let m = law_occurrence_where_any_name_stands(
        text,
        name,
        case_sensitive,
        searched,
        needle,
        p,
        b,
    );
    lemma_occurrence_is_told(state, document, symbols, name, m)
}

/// An occurrence of a known name is told. Its index in the answer is given.
proof fn lemma_occurrence_is_told(
    state: StateView,
    document: DocumentView,
    symbols: Seq<DocumentSymbolView>,
    name: Seq<char>,
    m: int,
) -> (k: int)
    requires
        are_document_symbols(state, document, Ok(Some(symbols))),
        state.symbols.dom().contains(name),
        text_of(state, document) is Ok,
        0 <= m < occurrences(
            text_of(state, document)->Ok_0,
            name,
            is_case_sensitive(state.config),
        ).len(),
    ensures
        0 <= k < symbols.len(),
        symbols[k].name == name,
        symbols[k].range == occurrences(
            text_of(state, document)->Ok_0,
            name,
            is_case_sensitive(state.config),
        )[m],
{
    let text = text_of(state, document)->Ok_0;
    let case_sensitive = is_case_sensitive(state.config);
    let list = lemma_document_answer(state, document, symbols);
    let range = occurrences(text, name, case_sensitive)[m];
    let symbol = DocumentSymbolView { name, range };
    let i = choose|i: int| 0 <= i < list.len() && (#[trigger] list[i]).name == name;
    assert(list[i].name == symbol.name && occurrences(
        text,
        symbol.name,
        case_sensitive,
    ).contains(symbol.range));
    law_document_symbols_are_occurrences(text, list, case_sensitive, symbols, symbol);
    choose|k: int| 0 <= k < symbols.len() && symbols[k] == symbol
}

/// The symbols of a document are told in the order in which they start, none of them twice at one
/// place.
pub proof fn law_document_symbols_are_sorted(
    state: StateView,
    document: DocumentView,
    symbols: Seq<DocumentSymbolView>,
    i: int,
    j: int,
)
    requires
        are_document_symbols(state, document, Ok(Some(symbols))),
        0 <= i < j < symbols.len(),
    ensures
        ({
            let first = symbols[i].range.start;
            let second = symbols[j].range.start;
            first.line < second.line || (first.line == second.line && first.character
                <= second.character)
        }),
        (state.config.case_sensitive == Some(false) ==> keeps_places(
            text_of(state, document)->Ok_0,
            lowercase(text_of(state, document)->Ok_0),
        )) ==> symbols[i].name != symbols[j].name || symbols[i].range.start
            != symbols[j].range.start,
{
    let text = text_of(state, document)->Ok_0;
    let case_sensitive = is_case_sensitive(state.config);
    let list = lemma_document_answer(state, document, symbols);
    law_document_symbols_in_order(all_occurrences(text, list, case_sensitive), symbols, i, j);
    if state.config.case_sensitive == Some(false) ==> keeps_places(text, lowercase(text)) {
        law_document_symbols_are_told_once(text, list, case_sensitive, symbols, i, j);
    }
}

/// The token of each symbol of a document is as long as the name of the symbol, in bytes.
pub proof fn law_token_is_as_long_as_name(
    state: StateView,
    document: DocumentView,
    symbols: Seq<DocumentSymbolView>,
    answer: Result<Option<Seq<DocumentSymbolView>>, Error>,
    token_type: u32,
    tokens: Result<Seq<SemanticToken>, Error>,
    i: int,
)
    requires
        are_document_symbols(state, document, Ok(Some(symbols))),
        are_document_symbols(state, document, answer),
        are_tokens_of(answer, token_type, tokens),
        0 <= i < symbols.len(),
    ensures
        tokens is Ok,
        tokens->Ok_0.len() == symbols.len(),
        tokens->Ok_0[i].length == utf8_len(symbols[i].name),
        tokens->Ok_0[i].token_type == token_type,
        tokens->Ok_0[i].token_modifiers_bitset == 0,
{
    law_tokens_tell_document_symbols(state, document, symbols, answer, token_type, tokens);
    let m = lemma_document_symbol(state, document, symbols, i);
    law_document_symbol_is_as_long_as_name(state, document, symbols, i);
    assert(tokens->Ok_0[i].length == wrapped_difference(
        symbols[i].range.end.character,
        symbols[i].range.start.character,
    ));
}

/// Where no symbols are told of a document there are no tokens, and an error stays one.
pub proof fn law_no_tokens_without_symbols(
    state: StateView,
    document: DocumentView,
    token_type: u32,
    tokens: Result<Seq<SemanticToken>, Error>,
)
    requires
        exists|symbols: Result<Option<Seq<DocumentSymbolView>>, Error>| #[trigger]
            are_document_symbols(state, document, symbols) && are_tokens_of(
                symbols,
                token_type,
                tokens,
            ),
    ensures
        are_document_symbols(state, document, Ok(None)) ==> tokens is Ok && tokens->Ok_0.len() == 0,
        tokens is Err ==> text_of(state, document) == Err::<Seq<char>, Error>(tokens->Err_0),
        text_of(state, document) is Err ==> tokens is Err || tokens->Ok_0.len() == 0,
{
    let symbols = choose|symbols: Result<Option<Seq<DocumentSymbolView>>, Error>| #[trigger]
        are_document_symbols(state, document, symbols) && are_tokens_of(
            symbols,
            token_type,
            tokens,
        );
    law_when_document_symbols_are_told(state, document, symbols);
    if are_document_symbols(state, document, Ok(None)) {
        law_when_document_symbols_are_told(state, document, Ok(None));
    }
}

/// The references to a name are grouped by the symbols of a list, each known.
proof fn lemma_reference_answer(
    state: StateView,
    symbol: SymbolView,
    groups: Seq<GroupView>,
) -> (list: Seq<SymbolView>)
    requires
        are_references_to(state, Ok(Some(symbol)), Ok(Some(groups))),
    ensures
        lists(state.symbols, list),
        groups == reference_groups(
            all_located(state.cache_dir, list),
            search_for(symbol.name, is_case_sensitive(state.config)),
        ),
{
    choose|list: Seq<SymbolView>| #[trigger]
        lists(state.symbols, list) && Ok::<Option<Seq<GroupView>>, Error>(Some(groups)) == Ok::<
            Option<Seq<GroupView>>,
            Error,
        >(
            Some(
                reference_groups(
                    all_located(state.cache_dir, list),
                    search_for(symbol.name, is_case_sensitive(state.config)),
                ),
            ),
        )
}

/// A group of references is of a symbol that is known, has a definition and has the extension of
/// a file; each of its locations is in that file. Its range lies on one line and is as long as the
/// name that is searched for, in bytes; where 32 bits can not tell the end, what they can tell of
/// it is told.
pub proof fn law_reference_group(
    state: StateView,
    symbol: SymbolView,
    groups: Seq<GroupView>,
    g: int,
    k: int,
)
    requires
        are_references_to(state, Ok(Some(symbol)), Ok(Some(groups))),
        0 <= g < groups.len(),
    ensures
        groups[g].locations.len() > 0,
        state.symbols.dom().contains(groups[g].symbol.name),
        state.symbols[groups[g].symbol.name] == groups[g].symbol.info,
        groups[g].symbol.info.definition is Some,
        groups[g].symbol.info.definition_file_ext is Some,
        0 <= k < groups[g].locations.len() ==> {
            let found = groups[g].locations[k];
            let end = found.range.start.character + utf8_len(symbol.name);
            &&& Some(found.uri) == path_text_of(
                joined_path_of(
                    state.cache_dir,
                    groups[g].symbol.name + groups[g].symbol.info.definition_file_ext->0,
                ),
            )
            &&& found.range.end.line == found.range.start.line
            &&& found.range.end.character == end % 0x1_0000_0000
            &&& end <= u32::MAX ==> found.range.end.character == end
            &&& is_ascii_chars(symbol.name) ==> end == found.range.start.character
                + symbol.name.len()
        },
{
    let list = lemma_reference_answer(state, symbol, groups);
    let all = all_located(state.cache_dir, list);
    let case_sensitive = is_case_sensitive(state.config);
    let i = law_group_is_of_symbol(all, search_for(symbol.name, case_sensitive), g);
    assert(all[i] == located(state.cache_dir, list[i]));
    assert(state.symbols.dom().contains(list[i].name));
    if 0 <= k < groups[g].locations.len() {
        law_reference_is_as_long_as_name(all[i], symbol.name, case_sensitive, k);
    }
}

/// Where a reference is told, the name stands in the definition of the symbol of its group: on the
/// line that the range says, so many UTF-16 units behind the start of the line as the range says,
/// and continued by a word character on neither side. Where the configuration says that the case of
/// letters makes no difference, this is so of the two in lower case. The character at which the
/// name stands and the one at which its line starts are given.
pub proof fn law_reference_stands_in_definition(
    state: StateView,
    symbol: SymbolView,
    groups: Seq<GroupView>,
    g: int,
    k: int,
    text: Seq<char>,
    word: Seq<char>,
) -> (place: (int, int))
    requires
        are_references_to(state, Ok(Some(symbol)), Ok(Some(groups))),
        0 <= g < groups.len(),
        0 <= k < groups[g].locations.len(),
        state.config.case_sensitive != Some(false) ==> Some(text)
            == groups[g].symbol.info.definition && word == symbol.name,
        state.config.case_sensitive == Some(false) ==> text == lowercase(
            groups[g].symbol.info.definition->0,
        ) && word == lowercase(symbol.name),
        0 < word.len(),
        utf8_len(word) == utf8_len(symbol.name) <= u32::MAX,
        forall|i: int| 0 <= i < word.len() ==> is_word_char(#[trigger] word[i]),
    ensures
        ({
            let (p, b) = place;
            let start = groups[g].locations[k].range.start;
            &&& 0 <= b <= p
            &&& p + word.len() <= text.len()
            &&& text.subrange(p, p + word.len()) == word
            &&& is_word(text, p, p + word.len())
            &&& start.line == line_feeds(text.take(p))
            &&& b == 0 || text[b - 1] == '\n'
            &&& forall|j: int| b <= j < p ==> #[trigger] text[j] != '\n'
            &&& start.character == utf16_len(text.subrange(b, p))
        }),
{
    let list = lemma_reference_answer(state, symbol, groups);
    let all = all_located(state.cache_dir, list);
    let case_sensitive = is_case_sensitive(state.config);
    let i = law_group_is_of_symbol(all, search_for(symbol.name, case_sensitive), g);
    law_name_stands_at_reference(all[i], symbol.name, case_sensitive, text, word, k)
}

/// No reference is missed: wherever the name stands in the definition of a known symbol that a file
/// can show, continued by a word character on neither side, there is a reference in the group of
/// that symbol, as far as 32 bits can tell the place. The indices of the group and of the location
/// in it are given.
pub proof fn law_name_in_definition_is_told(
    state: StateView,
    symbol: SymbolView,
    groups: Seq<GroupView>,
    other: Seq<char>,
    text: Seq<char>,
    word: Seq<char>,
    p: int,
    b: int,
) -> (at: (int, int))
    requires
        are_references_to(state, Ok(Some(symbol)), Ok(Some(groups))),
        state.symbols.dom().contains(other),
        state.symbols[other].definition is Some,
        state.symbols[other].definition_file_ext is Some,
        path_text_of(
            joined_path_of(state.cache_dir, other + state.symbols[other].definition_file_ext->0),
        ) is Some,
        state.config.case_sensitive != Some(false) ==> Some(text)
            == state.symbols[other].definition && word == symbol.name,
        state.config.case_sensitive == Some(false) ==> text == lowercase(
            state.symbols[other].definition->0,
        ) && word == lowercase(symbol.name),
        0 < word.len(),
        utf8_len(word) == utf8_len(symbol.name) <= u32::MAX,
        is_word(text, p, p + word.len()),
        text.subrange(p, p + word.len()) == word,
        0 <= b <= p,
        b == 0 || text[b - 1] == '\n',
        forall|j: int| b <= j < p ==> #[trigger] text[j] != '\n',
        line_feeds(text.take(p)) <= u32::MAX,
        utf16_len(text.subrange(b, p)) <= u32::MAX,
    ensures
        0 <= at.0 < groups.len(),
        groups[at.0].symbol.name == other,
        0 <= at.1 < groups[at.0].locations.len(),
        groups[at.0].locations[at.1].range.start.line == line_feeds(text.take(p)),
        groups[at.0].locations[at.1].range.start.character == utf16_len(text.subrange(b, p)),
{
    let list = lemma_reference_answer(state, symbol, groups);
    let all = all_located(state.cache_dir, list);
    let case_sensitive = is_case_sensitive(state.config);
    let i = choose|i: int| 0 <= i < list.len() && (#[trigger] list[i]).name == other;
    assert(all[i] == located(state.cache_dir, list[i]));
    let k = law_reference_where_name_stands(all[i], symbol.name, case_sensitive, text, word, p, b);
    let g = law_symbol_has_group(all, search_for(symbol.name, case_sensitive), i);
    (g, k)
}

/// Each reference is told once: no two groups are of one symbol, and in a group a later location
/// starts at a later place.
pub proof fn law_each_reference_is_told_once(
    state: StateView,
    symbol: SymbolView,
    groups: Seq<GroupView>,
    g: int,
    h: int,
    i: int,
    j: int,
)
    requires
        are_references_to(state, Ok(Some(symbol)), Ok(Some(groups))),
        0 <= g < groups.len(),
    ensures
        g < h < groups.len() ==> groups[g].symbol.name != groups[h].symbol.name,
        0 <= i < j < groups[g].locations.len() ==> {
            let first = groups[g].locations[i].range.start;
            let second = groups[g].locations[j].range.start;
            first.line < second.line || (first.line == second.line && first.character
                < second.character)
        },
{
    let list = lemma_reference_answer(state, symbol, groups);
    let all = all_located(state.cache_dir, list);
    let search = search_for(symbol.name, is_case_sensitive(state.config));
    if g < h < groups.len() {
        let at = law_groups_are_of_different_symbols(all, search, g, h);
        assert(all[at.0].symbol == list[at.0] && all[at.1].symbol == list[at.1]);
        assert(list[at.0].name != list[at.1].name);
    }
    let m = law_group_is_of_symbol(all, search, g);
    if 0 <= i < j < groups[g].locations.len() {
        law_references_are_told_once(all[m], search, i, j);
    }
}

/// References are told of the symbol that is found at a place, if one is. Where none is found, none
/// are told; an error stays one. The symbol is given.
pub proof fn law_references_are_to_symbol(
    state: StateView,
    document: DocumentView,
    position: Position,
    answer: Result<Option<Seq<GroupView>>, Error>,
) -> (symbol: Result<Option<SymbolView>, Error>)
    requires
        exists|symbol: Result<Option<SymbolView>, Error>| #[trigger]
            is_symbol_at(state, document, position, symbol) && are_references_to(
                state,
                symbol,
                answer,
            ),
    ensures
        is_symbol_at(state, document, position, symbol),
        match symbol {
            Ok(Some(found)) => {
                &&& answer is Ok
                &&& answer->Ok_0 is Some
                &&& are_references_to(state, Ok(Some(found)), Ok(Some(answer->Ok_0->0)))
            },
            Ok(None) => answer == Ok::<Option<Seq<GroupView>>, Error>(None),
            Err(e) => answer == Err::<Option<Seq<GroupView>>, Error>(e),
        },
{
    choose|symbol: Result<Option<SymbolView>, Error>| #[trigger]
        is_symbol_at(state, document, position, symbol) && are_references_to(state, symbol, answer)
}

/// Whether the points of all names that a query matches fit in 32 bits.
pub open spec fn all_points_fit(state: StateView, query: Seq<char>) -> bool {
    forall|name: Seq<char>| #[trigger]
        state.symbols.dom().contains(name) && fuzzy_score_of(query, name) is Some
            ==> fuzzy_score_of(query, name)->0 + 1000 <= u32::MAX
}

proof fn lemma_points_fit(state: StateView, list: Seq<SymbolView>, query: Seq<char>)
    requires
        lists(state.symbols, list),
        all_points_fit(state, query),
    ensures
        points_fit(query, names_of(list)),
{
    let names = names_of(list);
    assert forall|i: int|
        0 <= i < names.len() && fuzzy_score_of(
            query,
            #[trigger] names[i],
        ) is Some implies fuzzy_score_of(query, names[i])->0 + 1000 <= u32::MAX by {
        assert(state.symbols.dom().contains(list[i].name));
    }
}

/// Every known symbol whose name the query matches is among the completions, unless there are a
/// hundred already; then none of them has fewer points than the name.
pub proof fn law_match_is_completed(
    state: StateView,
    query: Seq<char>,
    found: Seq<CompletionItemView>,
    name: Seq<char>,
)
    requires
        are_completions_found(state, query, found),
        state.symbols.dom().contains(name),
        fuzzy_score_of(query, name) is Some,
    ensures
        found.len() < 100 ==> exists|k: int|
            0 <= k < found.len() && (#[trigger] found[k]).label == name,
        all_points_fit(state, query) && (forall|k: int|
            0 <= k < found.len() ==> (#[trigger] found[k]).label != name) ==> found.len() == 100
            && forall|k: int|
            0 <= k < found.len() ==> points(query, (#[trigger] found[k]).label) >= points(
                query,
                name,
            ),
{
    let list = choose|list: Seq<SymbolView>| #[trigger]
        lists(state.symbols, list) && list.len() <= usize::MAX && are_best_completions(
            query,
            list,
            scores_of(query, list),
            found,
        );
    let items = law_completions_match(query, list, found);
    let names = names_of(list);
    let i = choose|i: int| 0 <= i < list.len() && (#[trigger] list[i]).name == name;
    assert(names[i] == name);
    if items.contains(i as usize) {
        let k = choose|k: int| 0 <= k < items.len() && items[k] == i as usize;
        assert(found[k].label == name);
    } else if all_points_fit(state, query) {
        lemma_points_fit(state, list, query);
        assert forall|k: int| 0 <= k < found.len() implies points(
            query,
            (#[trigger] found[k]).label,
        ) >= points(query, name) by {
            assert(items[k] < names.len());
            assert(found[k].label == names[items[k] as int]);
        }
    }
}

/// Completions are known symbols whose names the query matches, a hundred at most and each once,
/// told with the text that is known of them. None has fewer points than a later one.
pub proof fn law_completions_are_best_matches(
    state: StateView,
    query: Seq<char>,
    found: Seq<CompletionItemView>,
    j: int,
    k: int,
)
    requires
        are_completions_found(state, query, found),
        0 <= j <= k < found.len(),
    ensures
        found.len() <= 100,
        state.symbols.dom().contains(found[k].label),
        fuzzy_score_of(query, found[k].label) is Some,
        ({
            let hover = state.symbols[found[k].label].hover;
            &&& hover is Some ==> found[k].documentation == hover->0
            &&& hover is None ==> found[k].documentation.len() == 0
        }),
        j < k ==> found[j].label != found[k].label,
        all_points_fit(state, query) ==> points(query, found[j].label) >= points(
            query,
            found[k].label,
        ),
{
    let list = choose|list: Seq<SymbolView>| #[trigger]
        lists(state.symbols, list) && list.len() <= usize::MAX && are_best_completions(
            query,
            list,
            scores_of(query, list),
            found,
        );
    let items = law_completions_match(query, list, found);
    let names = names_of(list);
    let a = items[j] as int;
    let b = items[k] as int;
    assert(a < names.len() && b < names.len());
    assert(found[j].label == list[a].name && found[k].label == list[b].name);
    assert(state.symbols.dom().contains(list[b].name));
    law_known_text_is_told(list[b]);
    if j < k {
        assert(items[j] != items[k]);
        if a < b {
            assert(list[a].name != list[b].name);
        } else {
            assert(list[b].name != list[a].name);
        }
    }
    if all_points_fit(state, query) {
        lemma_points_fit(state, list, query);
        assert(names[a] == found[j].label && names[b] == found[k].label);
    }
}

/// The text that is completed is what stands of a word before the cursor, if it has three bytes or
/// more. Directly behind a character that is no word character nothing is completed.
pub proof fn law_completed_text(line: Seq<char>, character: u32, k: int, a: int)
    requires
        0 <= a <= k <= line.len(),
        k == 0 || unit_pos(line, k - 1) < character,
        k == line.len() || unit_pos(line, k) >= character,
        forall|j: int| a <= j < k ==> is_word_char(#[trigger] line[j]),
        a == 0 || !is_word_char(line[a - 1]),
    ensures
        utf8_len(line.subrange(a, k)) >= 3 ==> completion_text(line, character) == Some(
            line.subrange(a, k),
        ),
        utf8_len(line.subrange(a, k)) < 3 ==> completion_text(line, character) is None,
{
    let before = line.take(k);
    lemma_chars_before(line, k, character as int);
    if k > 0 {
        assert(before.take(k - 1) =~= line.take(k - 1));
    }
    law_ident_at_any_cursor(before, character as int, k, a, k);
    assert(before.subrange(a, k) =~= line.subrange(a, k));
    if a < k {
        assert forall|j: int| a <= j < k implies is_word_char(#[trigger] before[j]) by {
            assert(before[j] == line[j]);
        }
        assert(is_word(before, a, k));
    } else {
        assert(line.subrange(a, k) =~= Seq::<char>::empty());
    }
}

/// At a place of an open document the text of a word before the cursor is completed. Nothing is
/// completed where the text is too short or the document is not open; a line that the document does
/// not have is an error.
pub proof fn law_completion_at_place(
    state: StateView,
    document: DocumentView,
    position: Position,
    k: int,
    a: int,
    r: Result<Option<Seq<CompletionItemView>>, Error>,
)
    requires
        are_completions(state, document, position, r),
    ensures
        text_of(state, document) is Err ==> r == Ok::<Option<Seq<CompletionItemView>>, Error>(None),
        text_of(state, document) is Ok && position.line >= line_count(
            text_of(state, document)->Ok_0,
        ) ==> r == Err::<Option<Seq<CompletionItemView>>, Error>(Error::LineOutOfBounds),
        text_of(state, document) is Ok && position.line < line_count(
            text_of(state, document)->Ok_0,
        ) ==> {
            let line = line_text(text_of(state, document)->Ok_0, position.line as int);
            &&& 0 <= a <= k <= line.len()
            &&& k == 0 || unit_pos(line, k - 1) < position.character
            &&& k == line.len() || unit_pos(line, k) >= position.character
            &&& forall|j: int| a <= j < k ==> is_word_char(#[trigger] line[j])
            &&& a == 0 || !is_word_char(line[a - 1])
        } ==> {
            let word = line_text(
                text_of(state, document)->Ok_0,
                position.line as int,
            ).subrange(a, k);
            &&& utf8_len(word) < 3 ==> r == Ok::<Option<Seq<CompletionItemView>>, Error>(None)
            &&& utf8_len(word) >= 3 ==> r is Ok && r->Ok_0 is Some && are_completions_found(
                state,
                word,
                r->Ok_0->0,
            )
        },
{
    if text_of(state, document) is Ok {
        let line = line_text(text_of(state, document)->Ok_0, position.line as int);
        if 0 <= a <= k <= line.len() && (k == 0 || unit_pos(line, k - 1) < position.character) && (k
            == line.len() || unit_pos(line, k) >= position.character) && (forall|j: int|
            a <= j < k ==> is_word_char(#[trigger] line[j])) && (a == 0 || !is_word_char(
            line[a - 1],
        )) {
            law_completed_text(line, position.character, k, a);
        }
    }
}

/// Every known symbol that has a definition and a file to show it, and whose name the query
/// matches, is found, unless there are a hundred already; then none of them has fewer points than
/// the name.
pub proof fn law_match_is_found(
    state: StateView,
    query: Seq<char>,
    found: Seq<SymbolInformationView>,
    name: Seq<char>,
)
    requires
        are_symbols_found(state, query, found),
        state.symbols.dom().contains(name),
        state.symbols[name].definition is Some,
        state.symbols[name].definition_file_ext is Some,
        path_text_of(
            joined_path_of(state.cache_dir, name + state.symbols[name].definition_file_ext->0),
        ) is Some,
        fuzzy_score_of(query, name) is Some,
    ensures
        found.len() < 100 ==> exists|k: int|
            0 <= k < found.len() && (#[trigger] found[k]).name == name,
        all_points_fit(state, query) && (forall|k: int|
            0 <= k < found.len() ==> (#[trigger] found[k]).name != name) ==> found.len() == 100
            && forall|k: int|
            0 <= k < found.len() ==> points(query, (#[trigger] found[k]).name) >= points(
                query,
                name,
            ),
{
    let list = choose|list: Seq<SymbolView>| #[trigger]
        lists(state.symbols, list) && list.len() <= usize::MAX && are_best_symbols(
            query,
            all_located(state.cache_dir, list),
            scores_of(query, list),
            found,
        );
    let items = law_found_symbols_match(query, state.cache_dir, list, found);
    let names = names_of(list);
    let i = choose|i: int| 0 <= i < list.len() && (#[trigger] list[i]).name == name;
    assert(names[i] == name);
    assert(definition_url(state.cache_dir, list[i]) is Some);
    if items.contains(i as usize) {
        let k = choose|k: int| 0 <= k < items.len() && items[k] == i as usize;
        assert(found[k].name == name);
    } else if all_points_fit(state, query) {
        lemma_points_fit(state, list, query);
        assert forall|k: int| 0 <= k < found.len() implies points(
            query,
            (#[trigger] found[k]).name,
        ) >= points(query, name) by {
            assert(items[k] < names.len());
            assert(found[k].name == names[items[k] as int]);
        }
    }
}

/// What a search finds are known symbols whose names the query matches, a hundred at most and each
/// once. Each is told with the file that shows its definition and with the lines of it, from the
/// first place to the start of the last line. None has fewer points than a later one.
pub proof fn law_found_symbols_are_best_matches(
    state: StateView,
    query: Seq<char>,
    found: Seq<SymbolInformationView>,
    j: int,
    k: int,
)
    requires
        are_symbols_found(state, query, found),
        0 <= j <= k < found.len(),
    ensures
        found.len() <= 100,
        state.symbols.dom().contains(found[k].name),
        fuzzy_score_of(query, found[k].name) is Some,
        ({
            let info = state.symbols[found[k].name];
            let range = found[k].location.range;
            let lines_before = line_feeds(info.definition->0.drop_last());
            &&& info.definition is Some
            &&& info.definition_file_ext is Some
            &&& Some(found[k].location.uri) == path_text_of(
                joined_path_of(state.cache_dir, found[k].name + info.definition_file_ext->0),
            )
            &&& range.start.line == 0 && range.start.character == 0 && range.end.character == 0
            &&& info.definition->0.len() == 0 ==> range.end.line == 0
            &&& info.definition->0.len() > 0 && lines_before <= u32::MAX ==> range.end.line
                == lines_before
        }),
        j < k ==> found[j].name != found[k].name,
        all_points_fit(state, query) ==> points(query, found[j].name) >= points(
            query,
            found[k].name,
        ),
{
    let list = choose|list: Seq<SymbolView>| #[trigger]
        lists(state.symbols, list) && list.len() <= usize::MAX && are_best_symbols(
            query,
            all_located(state.cache_dir, list),
            scores_of(query, list),
            found,
        );
    let items = law_found_symbols_match(query, state.cache_dir, list, found);
    let names = names_of(list);
    let a = items[j] as int;
    let b = items[k] as int;
    assert(a < names.len() && b < names.len());
    assert(found[j].name == list[a].name && found[k].name == list[b].name);
    assert(state.symbols.dom().contains(list[b].name));
    assert(definition_url(state.cache_dir, list[b]) is Some);
    law_definition_range(list[b].info.definition->0);
    if j < k {
        assert(items[j] != items[k]);
        if a < b {
            assert(list[a].name != list[b].name);
        } else {
            assert(list[b].name != list[a].name);
        }
    }
    if all_points_fit(state, query) {
        lemma_points_fit(state, list, query);
        assert(names[a] == found[j].name && names[b] == found[k].name);
    }
}

/// A search is made for the query without the white space around it. One that is nothing but white
/// space finds nothing. The definitions of the symbols that are found are to be shown, one after
/// the other, unless the client asks again for those that it needs.
pub proof fn law_search_of_workspace(
    state: StateView,
    query: Seq<char>,
    a: int,
    b: int,
    r: Result<Option<WorkspaceSymbols>, Error>,
    after: StateView,
    k: int,
)
    requires
        0 <= a < b <= query.len(),
        forall|i: int| 0 <= i < a ==> is_white_space(#[trigger] query[i]),
        forall|i: int| b <= i < query.len() ==> is_white_space(#[trigger] query[i]),
        !is_white_space(query[a]),
        !is_white_space(query[b - 1]),
        search_text(query).len() > 0 ==> are_workspace_symbols(state, query, r, after),
    ensures
        r is Ok,
        r->Ok_0 is Some,
        ({
            let found = r->Ok_0->0.found@;
            let emit = r->Ok_0->0.emit@;
            let client = state.client_capabilities;
            &&& are_symbols_found(state, query.subrange(a, b), symbol_information_views(found))
            &&& client is Some && client->0.resolves_symbols ==> emit.len() == 0
            &&& client is None || !client->0.resolves_symbols ==> {
                &&& emit.len() == found.len()
                &&& 0 <= k < found.len() ==> {
                    &&& state.symbols.dom().contains(emit[k].name@)
                    &&& state.symbols[emit[k].name@] == emit[k].info@
                    &&& state.config.case_sensitive != Some(false) ==> emit[k].name@
                        == found[k].name@
                    &&& lowercase(emit[k].name@) == lowercase(found[k].name@)
                }
            }
        }),
        after == capabilities_known(state),
{
    let place = law_trimmed(query);
    if place.0 < a {
        assert(is_white_space(query[place.0]));
        if place.0 == place.1 {
            assert(is_white_space(query[a]));
        }
    }
    if a < place.0 {
        assert(is_white_space(query[a]));
    }
    if place.1 < b {
        assert(is_white_space(query[b - 1]));
    }
    if b < place.1 {
        assert(is_white_space(query[place.1 - 1]));
    }
    assert(search_text(query) == query.subrange(a, b));
    let found = symbol_information_views(r->Ok_0->0.found@);
    let emit = symbol_views(r->Ok_0->0.emit@);
    if !(after.client_capabilities is Some && after.client_capabilities->0.resolves_symbols) && 0
        <= k < found.len() {
        assert(is_symbol_for(after, found[k].name, Some(emit[k])));
        law_case_of_names(after, found[k].name, Some(emit[k]));
    }
}

/// A query that is nothing but white space is an empty search, which can always be made.
pub proof fn law_blank_search_is_empty(state: StateView, query: Seq<char>)
    requires
        forall|i: int| 0 <= i < query.len() ==> is_white_space(#[trigger] query[i]),
    ensures
        search_text(query).len() == 0,
        can_search(state, query),
{
    let place = law_trimmed(query);
    if place.0 < place.1 {
        assert(is_white_space(query[place.0]));
    }
}

/// To ask for the symbols of a document changes nothing but what is known of the client and of the
/// path of the document.
pub proof fn law_asking_for_symbols_keeps_the_rest(state: StateView, document: DocumentView)
    ensures
        ({
            let after = symbols_asked(state, document);
            &&& after.config == state.config
            &&& after.cache_dir == state.cache_dir
            &&& after.symbols == state.symbols
            &&& after.text_documents == state.text_documents
            &&& after.token_type_highlight_idx == state.token_type_highlight_idx
            &&& after.client_capabilities is Some
            &&& state.client_capabilities is Some ==> after.client_capabilities
                == state.client_capabilities
            &&& path_of(after, document) == path_of(state, document)
            &&& text_of(after, document) == text_of(state, document)
        }),
{
}

/// Whether a query is of ordinary length for the names of all symbols: it has no more than 1260
/// characters, or less than 2^16 where no name has more than 2520 bytes. It or all names are ASCII.
pub open spec fn is_ordinary(state: StateView, query: Seq<char>) -> bool {
    &&& query.len() < 0x1_0000
    &&& forall|name: Seq<char>| #[trigger]
        state.symbols.dom().contains(name) ==> {
            &&& utf8_len(name) <= u32::MAX
            &&& query.len() <= 1260 || utf8_len(name) <= 2520
            &&& is_ascii_chars(query) || is_ascii_chars(name)
        }
}

proof fn lemma_ordinary(state: StateView, query: Seq<char>)
    requires
        is_ordinary(state, query),
    ensures
        names_can_be_scored(state, query),
{
    assert forall|name: Seq<char>| #[trigger]
        state.symbols.dom().contains(name) implies can_be_scored(query, name) by {
        if is_ascii_chars(query) {
            assert forall|k: int| 0 <= k < query.len() implies #[trigger] query[k] <= '\u{7f}' by {
                assert('\0' <= query[k] <= '\u{7f}');
            }
        }
        law_ordinary_texts_can_be_scored(query, name);
    }
}

/// A search for a query of ordinary length can be made.
pub proof fn law_ordinary_search_can_be_made(state: StateView, query: Seq<char>)
    requires
        is_ordinary(state, query),
    ensures
        can_search(state, query),
{
    let place = law_trimmed(query);
    let text = query.subrange(place.0, place.1);
    if is_ascii_chars(query) {
        assert forall|i: int| 0 <= i < text.len() implies '\0' <= #[trigger] text[i]
            <= '\u{7f}' by {
            assert('\0' <= query[place.0 + i] <= '\u{7f}');
        }
    }
    assert(is_ordinary(state, text));
    lemma_ordinary(state, text);
}

/// A text can be completed on every line of ordinary length. It can always be tried where there is
/// no text: the document is not open, or has no such line.
pub proof fn law_ordinary_completion_can_be_made(
    state: StateView,
    document: DocumentView,
    position: Position,
)
    requires
        text_of(state, document) is Ok && position.line < line_count(
            text_of(state, document)->Ok_0,
        ) ==> is_ordinary(
            state,
            line_text(text_of(state, document)->Ok_0, position.line as int),
        ),
    ensures
        can_complete(state, document, position),
{
    if text_of(state, document) is Ok && position.line < line_count(
        text_of(state, document)->Ok_0,
    ) {
        let line = line_text(text_of(state, document)->Ok_0, position.line as int);
        let k = chars_before_unit(line, position.character as int) as int;
        let before = line.take(k);
        lemma_chars_before_bound(line, position.character as int);
        lemma_chars_before_bound(before, position.character as int);
        let at = chars_before_unit(before, position.character as int) as int;
        if word_at(before, at) is Some {
            law_word_at_cursor_is_whole(before, at);
            let text = word_at(before, at)->0;
            if is_ascii_chars(line) {
                assert forall|i: int| 0 <= i < text.len() implies '\0' <= #[trigger] text[i]
                    <= '\u{7f}' by {
                    assert('\0' <= line[word_start(before, at) + i] <= '\u{7f}');
                }
            }
            assert(is_ordinary(state, text));
            lemma_ordinary(state, text);
        }
    }
}

/// Answers are taken as they are: an error stays that error, nothing stays nothing, and a list is
/// taken item by item.
pub proof fn law_answers_are_taken_as_they_are(
    text: Result<Option<String>, Error>,
    symbol: Result<Option<Symbol>, Error>,
    symbols: Result<Option<Vec<DocumentSymbol>>, Error>,
    groups: Result<Option<Vec<ReferenceGroup>>, Error>,
    items: Result<Option<Vec<CompletionItem>>, Error>,
    tokens: Result<Vec<SemanticToken>, Error>,
    i: int,
)
    ensures
        match text {
            Ok(Some(text)) => answer_view(Ok(Some(text))) == Ok::<Option<Seq<char>>, Error>(
                Some(text@),
            ),
            Ok(None) => answer_view(text) == Ok::<Option<Seq<char>>, Error>(None),
            Err(e) => answer_view(text) == Err::<Option<Seq<char>>, Error>(e),
        },
        match symbol {
            Ok(Some(symbol)) => answer_view(Ok(Some(symbol))) == Ok::<Option<SymbolView>, Error>(
                Some(symbol@),
            ),
            Ok(None) => answer_view(symbol) == Ok::<Option<SymbolView>, Error>(None),
            Err(e) => answer_view(symbol) == Err::<Option<SymbolView>, Error>(e),
        },
        match symbols {
            Ok(Some(list)) => document_symbols_view(symbols) == Ok::<
                Option<Seq<DocumentSymbolView>>,
                Error,
            >(Some(list@.map_values(|s: DocumentSymbol| s@))),
            Ok(None) => document_symbols_view(symbols) == Ok::<
                Option<Seq<DocumentSymbolView>>,
                Error,
            >(None),
            Err(e) => document_symbols_view(symbols) == Err::<
                Option<Seq<DocumentSymbolView>>,
                Error,
            >(e),
        },
        match groups {
            Ok(Some(list)) => {
                let taken = reference_answer_view(groups);
                &&& taken is Ok
                &&& taken->Ok_0 is Some
                &&& taken->Ok_0->0.len() == list@.len()
                &&& 0 <= i < list@.len() ==> {
                    &&& taken->Ok_0->0[i].symbol == list@[i].symbol@
                    &&& taken->Ok_0->0[i].locations == location_views(list@[i].locations@)
                }
            },
            Ok(None) => reference_answer_view(groups) == Ok::<Option<Seq<GroupView>>, Error>(None),
            Err(e) => reference_answer_view(groups) == Err::<Option<Seq<GroupView>>, Error>(e),
        },
        match items {
            Ok(Some(list)) => completion_answer_view(items) == Ok::<
                Option<Seq<CompletionItemView>>,
                Error,
            >(Some(list@.map_values(|item: CompletionItem| item@))),
            Ok(None) => completion_answer_view(items) == Ok::<
                Option<Seq<CompletionItemView>>,
                Error,
            >(None),
            Err(e) => completion_answer_view(items) == Err::<
                Option<Seq<CompletionItemView>>,
                Error,
            >(e),
        },
        match tokens {
            Ok(list) => tokens_view(tokens) == Ok::<Seq<SemanticToken>, Error>(list@),
            Err(e) => tokens_view(tokens) == Err::<Seq<SemanticToken>, Error>(e),
        },
{
    if symbols is Ok && symbols->Ok_0 is Some {
        let list = symbols->Ok_0->0@;
        assert(document_symbol_views(list) =~= list.map_values(|s: DocumentSymbol| s@));
    }
    if items is Ok && items->Ok_0 is Some {
        let list = items->Ok_0->0@;
        assert(completion_item_views(list) =~= list.map_values(|item: CompletionItem| item@));
    }
}

} // verus!
