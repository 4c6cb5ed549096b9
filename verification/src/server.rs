//! The server: how it is started, and what it knows of a place in a document.

use crate::config::{
    is_signed, law_signed_file_is_accepted, quoted, signature, signed_end, signed_text, ConfigView,
};
use crate::error::Error;
use crate::ident::{get_ident_on_line, ident_on_line};
use crate::located::{definition_uri, definition_url};
use crate::occurrences::folded;
use crate::paths::{joined_path_of, path_text_of};
use crate::protocol::{
    texts_view, CapabilitiesView, ClientCapabilities, DocumentView, Position, SemanticTokensOptions,
    SemanticTokensOptionsView, ServerCapabilities, ServerCapabilitiesView, TextDocument,
    TextDocumentSyncKind,
};
use crate::rope::{line_count, line_text, rope_get_line};
use crate::search::lowercase;
use crate::state::{looked_up, text_of, ServerState, StateView};
use crate::symbols::{
    filled, find_ignoring_case, found_ignoring_case, law_found_ignoring_case, law_row_is_told,
    lists, symbol_views, text_view, Column, InfoView, Symbol, SymbolRow, SymbolView,
};
use std::path::PathBuf;
use vstd::prelude::*;

verus! {

/// The server.
pub struct Server {
    pub state: ServerState,
}

/// The token type that symbols in a document are given.
pub const HIGHLIGHT_TYPE: &'static str = "enumMember";

/// The index of the first of the texts from `i` on that is `wanted`.
pub open spec fn first_index(texts: Seq<Seq<char>>, wanted: Seq<char>, i: int) -> Option<int>
    decreases texts.len() - i,
{
    if i < 0 || i >= texts.len() {
        None
    } else if texts[i] == wanted {
        Some(i)
    } else {
        first_index(texts, wanted, i + 1)
    }
}

/// The index of the token type of symbols, among those that a client knows.
pub open spec fn highlight_idx(token_types: Seq<Seq<char>>) -> Option<u32> {
    match first_index(token_types, HIGHLIGHT_TYPE@, 0) {
        Some(i) => if i <= u32::MAX {
            Some(i as u32)
        } else {
            None
        },
        None => None,
    }
}

/// The index of the token type of symbols, among those that a client knows.
pub fn find_highlight_idx(token_types: &Vec<String>) -> (r: Option<u32>)
    ensures
        r == highlight_idx(texts_view(token_types@)),
{
    let ghost types = texts_view(token_types@);
    let wanted = HIGHLIGHT_TYPE.to_owned();
    let mut i: usize = 0;
    while i < token_types.len()
        invariant
            i <= token_types.len(),
            types == texts_view(token_types@),
            wanted@ == HIGHLIGHT_TYPE@,
            first_index(types, HIGHLIGHT_TYPE@, 0) == first_index(types, HIGHLIGHT_TYPE@, i as int),
        decreases token_types.len() - i,
    {
        proof {
            assert(types[i as int] == token_types@[i as int]@);
        }
        if token_types[i] == wanted {
            return if i as u64 <= u32::MAX as u64 {
                Some(i as u32)
            } else {
                None
            };
        }
        i += 1;
    }
    None
}

/// The index of the token type of symbols is the first at which it stands. There is none if the
/// client does not know the type, or if 32 bits can not tell the index.
pub proof fn law_highlight_idx(token_types: Seq<Seq<char>>)
    ensures
        match highlight_idx(token_types) {
            Some(i) => {
                &&& i < token_types.len()
                &&& token_types[i as int] == HIGHLIGHT_TYPE@
                &&& forall|j: int| 0 <= j < i ==> #[trigger] token_types[j] != HIGHLIGHT_TYPE@
            },
            None => forall|j: int|
                0 <= j < token_types.len() && j <= u32::MAX ==> #[trigger] token_types[j]
                    != HIGHLIGHT_TYPE@,
        },
{
    lemma_first_index(token_types, HIGHLIGHT_TYPE@, 0);
}

proof fn lemma_first_index(texts: Seq<Seq<char>>, wanted: Seq<char>, i: int)
    requires
        0 <= i,
    ensures
        match first_index(texts, wanted, i) {
            Some(k) => {
                &&& i <= k < texts.len()
                &&& texts[k] == wanted
                &&& forall|j: int| i <= j < k ==> #[trigger] texts[j] != wanted
            },
            None => forall|j: int| i <= j < texts.len() ==> #[trigger] texts[j] != wanted,
        },
    decreases texts.len() - i,
{
    if i < texts.len() && texts[i] != wanted {
        lemma_first_index(texts, wanted, i + 1);
    }
}

/// Whether a server may be started: one whose configuration is signed only once.
pub open spec fn can_start(state: StateView, secret: Seq<char>) -> bool {
    is_signed(state.config, secret) ==> state.client_capabilities is None
}

/// The state after a client has told what it can do.
pub open spec fn started(
    state: StateView,
    capabilities: CapabilitiesView,
    secret: Seq<char>,
) -> StateView {
    if is_signed(state.config, secret) {
        StateView {
            client_capabilities: Some(capabilities),
            token_type_highlight_idx: if highlight_idx(capabilities.token_types) is Some {
                highlight_idx(capabilities.token_types)
            } else {
                state.token_type_highlight_idx
            },
            ..state
        }
    } else {
        state
    }
}

/// The token types that the server announces: those of the client, if symbols are to be
/// highlighted.
pub open spec fn legend(config: ConfigView, capabilities: CapabilitiesView) -> Option<
    Seq<Seq<char>>,
> {
    if config.symbols_highlight == Some(true) {
        Some(capabilities.token_types)
    } else {
        None
    }
}

/// A server whose configuration is read from a signed file is started.
pub proof fn law_server_of_signed_file_starts(
    raw: Seq<char>,
    config: ConfigView,
    secret: Seq<char>,
    a: int,
    b: int,
    state: StateView,
    capabilities: CapabilitiesView,
)
    requires
        0 <= a,
        a + 2 <= b <= raw.len(),
        state.client_capabilities is None,
        state.config.get_symbols_query == config.get_symbols_query,
        ({
            let key = signature(secret, config.get_symbols_query);
            state.config.sign == quoted(
                signed_text(raw, a, b, key),
                a,
                signed_end(raw, a, b, key),
            )
        }),
    ensures
        can_start(state, secret),
        is_signed(state.config, secret),
        started(state, capabilities, secret).client_capabilities == Some(capabilities),
{
    law_signed_file_is_accepted(raw, config, secret, a, b, state.config);
}

/// What the server can do: it takes changes of stretches, and answers all requests. Semantic
/// tokens, of a document or of a part of it, are for symbols that are to be highlighted.
pub open spec fn announced(
    config: ConfigView,
    capabilities: CapabilitiesView,
) -> ServerCapabilitiesView {
    ServerCapabilitiesView {
        text_document_sync: TextDocumentSyncKind::Incremental,
        hover_provider: true,
        definition_provider: true,
        references_provider: true,
        completion_provider: true,
        document_symbol_provider: true,
        workspace_symbol_provider: true,
        workspace_symbol_resolve_provider: true,
        semantic_tokens: match legend(config, capabilities) {
            Some(token_types) => Some(
                SemanticTokensOptionsView { token_types, full: true, range: true },
            ),
            None => None,
        },
    }
}

/// Whether names are told apart by the case of their letters; they are unless the configuration
/// says otherwise.
pub open spec fn is_case_sensitive(config: ConfigView) -> bool {
    config.case_sensitive != Some(false)
}

/// The identifier at a place of a document.
pub open spec fn ident_in(
    state: StateView,
    document: DocumentView,
    position: Position,
) -> Result<Option<Seq<char>>, Error> {
    match text_of(state, document) {
        Err(e) => Err(e),
        Ok(text) => if position.line < line_count(text) {
            Ok(ident_on_line(line_text(text, position.line as int), position.character as int))
        } else {
            Err(Error::LineOutOfBounds)
        },
    }
}

/// The view of an answer that may be missing.
pub open spec fn answer_view<T: View>(r: Result<Option<T>, Error>) -> Result<Option<T::V>, Error> {
    match r {
        Ok(Some(answer)) => Ok(Some(answer@)),
        Ok(None) => Ok(None),
        Err(e) => Err(e),
    }
}

/// The view of a symbol that may be missing.
pub open spec fn symbol_view(symbol: Option<Symbol>) -> Option<SymbolView> {
    match symbol {
        Some(symbol) => Some(symbol@),
        None => None,
    }
}

/// Whether `symbol` is what an identifier stands for: the symbol of that name or, if the case of
/// letters makes no difference, the first one found whose name differs in it alone.
pub open spec fn is_symbol_for(
    state: StateView,
    ident: Seq<char>,
    symbol: Option<SymbolView>,
) -> bool {
    if is_case_sensitive(state.config) {
        symbol == (if state.symbols.dom().contains(ident) {
            Some(SymbolView { name: ident, info: state.symbols[ident] })
        } else {
            None
        })
    } else {
        exists|list: Seq<SymbolView>| #[trigger]
            lists(state.symbols, list) && symbol == found_ignoring_case(list, ident)
    }
}

/// Whether `r` is the symbol that stands at a place of a document.
pub open spec fn is_symbol_at(
    state: StateView,
    document: DocumentView,
    position: Position,
    r: Result<Option<SymbolView>, Error>,
) -> bool {
    match ident_in(state, document, position) {
        Err(e) => r == Err::<Option<SymbolView>, Error>(e),
        Ok(None) => r == Ok::<Option<SymbolView>, Error>(None),
        Ok(Some(ident)) => r is Ok && is_symbol_for(state, ident, r->Ok_0),
    }
}

/// A file that shows the definition of a symbol.
#[derive(Debug, PartialEq, Eq)]
pub struct DefinitionFile {
    /// Its name, in the folder for definitions.
    pub name: String,
    pub text: String,
    /// Its URL; `None` if the folder is not an absolute path.
    pub uri: Option<String>,
}

/// What a `DefinitionFile` says.
pub struct DefinitionFileView {
    pub name: Seq<char>,
    pub text: Seq<char>,
    pub uri: Option<Seq<char>>,
}

impl View for DefinitionFile {
    type V = DefinitionFileView;

    open spec fn view(&self) -> DefinitionFileView {
        DefinitionFileView { name: self.name@, text: self.text@, uri: text_view(self.uri) }
    }
}

/// The file that shows the definition of a symbol.
pub open spec fn definition_file(cache_dir: PathBuf, symbol: SymbolView) -> Result<
    DefinitionFileView,
    Error,
> {
    match (symbol.info.definition, symbol.info.definition_file_ext) {
        (Some(text), Some(ext)) => Ok(
            DefinitionFileView {
                name: symbol.name + ext,
                text,
                uri: definition_url(cache_dir, symbol),
            },
        ),
        _ => Err(Error::NoDefinition),
    }
}

/// Whether a symbol has a definition, and the extension of the file that shows it.
pub open spec fn has_definition(symbol: SymbolView) -> bool {
    symbol.info.definition is Some && symbol.info.definition_file_ext is Some
}

/// What an identifier stands for is a symbol that is known, whose name is the identifier, or
/// differs from it in the case of letters alone if that makes no difference. An identifier that
/// stands for nothing is not a known name.
pub proof fn law_symbol_for_identifier(
    state: StateView,
    ident: Seq<char>,
    symbol: Option<SymbolView>,
)
    requires
        is_symbol_for(state, ident, symbol),
    ensures
        symbol is Some ==> {
            &&& state.symbols.dom().contains(symbol->0.name)
            &&& state.symbols[symbol->0.name] == symbol->0.info
            &&& folded(symbol->0.name, is_case_sensitive(state.config)) == folded(
                ident,
                is_case_sensitive(state.config),
            )
        },
        symbol is None ==> forall|name: Seq<char>| #[trigger]
            state.symbols.dom().contains(name) ==> folded(name, is_case_sensitive(state.config))
                != folded(ident, is_case_sensitive(state.config)),
{
    if !is_case_sensitive(state.config) {
        let list = choose|list: Seq<SymbolView>| #[trigger]
            lists(state.symbols, list) && symbol == found_ignoring_case(list, ident);
        law_found_ignoring_case(list, ident);
        if symbol is Some {
            let i = choose|i: int| 0 <= i < list.len() && list[i] == symbol->0;
            assert(state.symbols.dom().contains(list[i].name));
        } else {
            assert forall|name: Seq<char>| #[trigger]
                state.symbols.dom().contains(name) implies lowercase(name) != lowercase(ident) by {
                let i = choose|i: int| 0 <= i < list.len() && (#[trigger] list[i]).name == name;
                assert(lowercase(list[i].name) != lowercase(ident));
            }
        }
    }
}

impl Server {
    /// Notes what the client can do. A server whose configuration is not signed is not started.
    pub fn startup(&mut self, capabilities: ClientCapabilities, secret: &str) -> (r: Result<
        (),
        Error,
    >)
        requires
            can_start(old(self).state@, secret@),
        ensures
            r == (if is_signed(old(self).state@.config, secret@) {
                Ok(())
            } else {
                Err(Error::NotSigned)
            }),
            final(self).state@ == started(old(self).state@, capabilities@, secret@),
    {
        let token_types = capabilities.token_types();
        let idx = find_highlight_idx(&token_types);
        if !self.state.config().is_signed(secret) {
            return Err(Error::NotSigned);
        }
        self.state.set_client(capabilities, idx);
        Ok(())
    }

    /// Starts the server; the answer is what it can do.
    pub fn initialize(&mut self, capabilities: ClientCapabilities, secret: &str) -> (r: Result<
        ServerCapabilities,
        Error,
    >)
        requires
            can_start(old(self).state@, secret@),
        ensures
            r is Ok <==> is_signed(old(self).state@.config, secret@),
            r is Ok ==> r->Ok_0@ == announced(old(self).state@.config, capabilities@),
            r is Err ==> r->Err_0 == Error::NotSigned,
            final(self).state@ == started(old(self).state@, capabilities@, secret@),
    {
        match self.startup(capabilities, secret) {
            Ok(()) => {},
            Err(e) => {
                return Err(e);
            },
        }
        let enabled = match self.state.config().symbols_highlight {
            Some(enabled) => enabled,
            None => false,
        };
        let semantic_tokens = match self.state.client_capabilities() {
            Some(capabilities) if enabled => Some(
                SemanticTokensOptions {
                    token_types: capabilities.token_types(),
                    full: true,
                    range: true,
                },
            ),
            _ => None,
        };
        Ok(
            ServerCapabilities {
                text_document_sync: TextDocumentSyncKind::Incremental,
                hover_provider: true,
                definition_provider: true,
                references_provider: true,
                completion_provider: true,
                document_symbol_provider: true,
                workspace_symbol_provider: true,
                workspace_symbol_resolve_provider: true,
                semantic_tokens,
            },
        )
    }

    /// Starts the server if it may be started; else `None`, and nothing is changed.
    pub fn try_initialize(&mut self, capabilities: ClientCapabilities, secret: &str) -> (r: Option<
        Result<ServerCapabilities, Error>,
    >)
        ensures
            r is Some <==> can_start(old(self).state@, secret@),
            r is Some ==> (r->0 is Ok <==> is_signed(old(self).state@.config, secret@)),
            r is Some && r->0 is Ok ==> r->0->Ok_0@ == announced(
                old(self).state@.config,
                capabilities@,
            ),
            r is Some && r->0 is Err ==> r->0->Err_0 == Error::NotSigned,
            r is Some ==> final(self).state@ == started(
                old(self).state@,
                capabilities@,
                secret@,
            ),
            r is None ==> final(self).state@ == old(self).state@,
    {
        if self.state.client_capabilities().is_some() && self.state.config().is_signed(secret) {
            return None;
        }
        Some(self.initialize(capabilities, secret))
    }

    /// Whether names are told apart by the case of their letters.
    pub fn case_sensitive(&self) -> (r: bool)
        ensures
            r == is_case_sensitive(self.state@.config),
            r <==> self.state@.config.case_sensitive is None || self.state@.config.case_sensitive
                == Some(true),
    {
        match self.state.config().case_sensitive {
            Some(case_sensitive) => case_sensitive,
            None => true,
        }
    }

    /// The identifier at a place of a document.
    pub fn get_ident_on_text_document(
        &mut self,
        document: &TextDocument,
        position: Position,
    ) -> (r: Result<Option<String>, Error>)
        ensures
            answer_view(r) == ident_in(old(self).state@, document@, position),
            final(self).state@ == looked_up(old(self).state@, document@),
    {
        let rope = match self.state.get_text_document(document) {
            Ok(rope) => rope,
            Err(e) => {
                return Err(e);
            },
        };
        match rope_get_line(&rope, position.line as usize) {
            Some(line) => Ok(get_ident_on_line(self.state.ident(), line.as_str(), position)),
            None => Err(Error::LineOutOfBounds),
        }
    }

    /// The symbol that an identifier stands for.
    pub fn get_symbol(&self, ident: &str) -> (r: Option<Symbol>)
        ensures
            is_symbol_for(self.state@, ident@, symbol_view(r)),
    {
        if self.case_sensitive() {
            self.state.symbol(ident)
        } else {
            let list = self.state.all_symbols();
            let r = find_ignoring_case(&list, ident);
            proof {
                assert(lists(self.state@.symbols, symbol_views(list@)));
            }
            r
        }
    }

    /// The symbol that stands at a place of a document.
    pub fn get_symbol_on_text_document(
        &mut self,
        document: &TextDocument,
        position: Position,
    ) -> (r: Result<Option<Symbol>, Error>)
        ensures
            is_symbol_at(old(self).state@, document@, position, answer_view(r)),
            final(self).state@ == looked_up(old(self).state@, document@),
    {
        match self.get_ident_on_text_document(document, position) {
            Err(e) => Err(e),
            Ok(None) => Ok(None),
            Ok(Some(ident)) => Ok(self.get_symbol(ident.as_str())),
        }
    }

    /// The file that shows the definition of a symbol.
    pub fn emit_symbol_definition(&self, symbol: &Symbol) -> (r: Result<DefinitionFile, Error>)
        ensures
            r is Ok ==> Ok::<DefinitionFileView, Error>(r->Ok_0@) == definition_file(
                self.state@.cache_dir,
                symbol@,
            ),
            r is Err ==> Err::<DefinitionFileView, Error>(r->Err_0) == definition_file(
                self.state@.cache_dir,
                symbol@,
            ),
            r is Ok <==> symbol@.info.definition is Some
                && symbol@.info.definition_file_ext is Some,
            r is Ok ==> Some(r->Ok_0.text@) == symbol@.info.definition,
            r is Ok ==> r->Ok_0.name@ == symbol@.name + symbol@.info.definition_file_ext->0,
            r is Err ==> r->Err_0 == Error::NoDefinition,
    {
        match (&symbol.info.definition, &symbol.info.definition_file_ext) {
            (Some(definition), Some(ext)) => {
                let mut name = symbol.name.clone();
                name.append(ext.as_str());
                let uri = definition_uri(self.state.cache_dir(), symbol);
                Ok(DefinitionFile { name, text: definition.clone(), uri })
            },
            _ => Err(Error::NoDefinition),
        }
    }
}

/// The file that shows a symbol holds its definition, character for character, and is named by its
/// name followed by the extension; its URL is that of the file of that name in the folder for
/// definitions. A symbol without a definition or without an extension has none.
pub proof fn law_definition_file_shows_definition(cache_dir: PathBuf, symbol: SymbolView)
    ensures
        match (symbol.info.definition, symbol.info.definition_file_ext) {
            (Some(definition), Some(ext)) => {
                let file = definition_file(cache_dir, symbol);
                &&& file is Ok
                &&& file->Ok_0.text == definition
                &&& file->Ok_0.name == symbol.name + ext
                &&& file->Ok_0.uri == path_text_of(joined_path_of(cache_dir, symbol.name + ext))
            },
            _ => definition_file(cache_dir, symbol) == Err::<DefinitionFileView, Error>(
                Error::NoDefinition,
            ),
        },
        has_definition(symbol) <==> symbol.info.definition is Some
            && symbol.info.definition_file_ext is Some,
{
}

/// The file that shows a symbol holds the definition that the last row of its name gave, and
/// nothing else.
pub proof fn law_definition_file_shows_row(
    cache_dir: PathBuf,
    table: Map<Seq<char>, InfoView>,
    rows: Seq<SymbolRow>,
    i: int,
    symbol: SymbolView,
)
    requires
        0 <= i < rows.len(),
        forall|j: int| 0 <= j < rows.len() ==> (#[trigger] rows[j]).identifier is Text,
        forall|j: int|
            i < j < rows.len() ==> (#[trigger] rows[j]).identifier->Text_0@
                != rows[i].identifier->Text_0@,
        symbol.name == rows[i].identifier->Text_0@,
        symbol.info == filled(table, rows)[symbol.name],
    ensures
        match (rows[i].definition, rows[i].definition_file_ext) {
            (Column::Text(definition), Column::Text(ext)) => {
                let file = definition_file(cache_dir, symbol);
                &&& file is Ok
                &&& file->Ok_0.text == definition@
                &&& file->Ok_0.name == rows[i].identifier->Text_0@ + ext@
            },
            _ => definition_file(cache_dir, symbol) == Err::<DefinitionFileView, Error>(
                Error::NoDefinition,
            ),
        },
{
    law_row_is_told(table, rows, i);
    law_definition_file_shows_definition(cache_dir, symbol);
}

/// Unless the configuration says that the case of letters makes no difference, an identifier stands
/// for the symbol that has it as its name, and for none if there is none of that name. If it says
/// so, an identifier stands for a symbol whose name agrees with it in lower case, and for none only
/// if there is none.
pub proof fn law_case_of_names(state: StateView, ident: Seq<char>, symbol: Option<SymbolView>)
    requires
        is_symbol_for(state, ident, symbol),
    ensures
        state.config.case_sensitive is None || state.config.case_sensitive == Some(true) ==> {
            &&& symbol is Some <==> state.symbols.dom().contains(ident)
            &&& symbol is Some ==> symbol->0.name == ident && symbol->0.info
                == state.symbols[ident]
        },
        state.config.case_sensitive == Some(false) ==> {
            &&& symbol is Some <==> exists|name: Seq<char>| #[trigger]
                state.symbols.dom().contains(name) && lowercase(name) == lowercase(ident)
            &&& symbol is Some ==> state.symbols.dom().contains(symbol->0.name)
                && symbol->0.info == state.symbols[symbol->0.name] && lowercase(symbol->0.name)
                == lowercase(ident)
        },
{
    law_symbol_for_identifier(state, ident, symbol);
    if state.config.case_sensitive == Some(false) && symbol is Some {
        assert(state.symbols.dom().contains(symbol->0.name));
    }
}

/// A name that is known stands for a symbol, whatever the configuration says. Two identifiers that
/// agree in lower case stand for something both or not at all, where the case of letters makes no
/// difference.
pub proof fn law_known_name_stands_for_symbol(
    state: StateView,
    first: Seq<char>,
    second: Seq<char>,
    a: Option<SymbolView>,
    b: Option<SymbolView>,
)
    requires
        is_symbol_for(state, first, a),
        is_symbol_for(state, second, b),
    ensures
        state.symbols.dom().contains(first) ==> a is Some,
        state.config.case_sensitive == Some(false) && lowercase(first) == lowercase(second)
            ==> (a is Some <==> b is Some),
        state.config.case_sensitive != Some(false) && first != second && a is Some && b is Some
            ==> a->0.name != b->0.name,
{
    law_case_of_names(state, first, a);
    law_case_of_names(state, second, b);
}

/// What is found at a place of a document is what the identifier there stands for. A document that
/// can not be read, or a line that it does not have, is an error; where no identifier is, nothing
/// is found.
pub proof fn law_symbol_at_place(
    state: StateView,
    document: DocumentView,
    position: Position,
    r: Result<Option<SymbolView>, Error>,
)
    requires
        is_symbol_at(state, document, position, r),
    ensures
        match text_of(state, document) {
            Err(e) => r == Err::<Option<SymbolView>, Error>(e),
            Ok(text) => {
                let line = line_text(text, position.line as int);
                &&& position.line >= line_count(text) ==> r == Err::<Option<SymbolView>, Error>(
                    Error::LineOutOfBounds,
                )
                &&& position.line < line_count(text) ==> match ident_on_line(
                    line,
                    position.character as int,
                ) {
                    None => r == Ok::<Option<SymbolView>, Error>(None),
                    Some(ident) => r is Ok && is_symbol_for(state, ident, r->Ok_0),
                }
            },
        },
{
}

/// A signed server is started: it notes what the client can do, and the first index at which the
/// client knows the token type of members of an enumeration. One that is not signed stays as it is.
/// Nothing else is changed.
pub proof fn law_server_is_started(
    state: StateView,
    capabilities: CapabilitiesView,
    secret: Seq<char>,
)
    ensures
        ({
            let after = started(state, capabilities, secret);
            let types = capabilities.token_types;
            &&& !is_signed(state.config, secret) ==> after == state
            &&& is_signed(state.config, secret) ==> {
                &&& after.client_capabilities == Some(capabilities)
                &&& forall|i: int|
                    0 <= i < types.len() && i <= u32::MAX && #[trigger] types[i] == "enumMember"@
                        && (forall|j: int| 0 <= j < i ==> #[trigger] types[j] != "enumMember"@)
                        ==> after.token_type_highlight_idx == Some(i as u32)
                &&& !types.contains("enumMember"@) ==> after.token_type_highlight_idx
                    == state.token_type_highlight_idx
            }
            &&& after.config == state.config
            &&& after.cache_dir == state.cache_dir
            &&& after.symbols == state.symbols
            &&& after.url_to_path == state.url_to_path
            &&& after.text_documents == state.text_documents
        }),
        can_start(state, secret) <==> !is_signed(state.config, secret)
            || state.client_capabilities is None,
{
    let types = capabilities.token_types;
    lemma_first_index(types, "enumMember"@, 0);
    if is_signed(state.config, secret) {
        assert forall|i: int|
            0 <= i < types.len() && i <= u32::MAX && #[trigger] types[i] == "enumMember"@ && (
            forall|j: int| 0 <= j < i ==> #[trigger] types[j] != "enumMember"@) implies started(
            state,
            capabilities,
            secret,
        ).token_type_highlight_idx == Some(i as u32) by {
            let k = first_index(types, "enumMember"@, 0);
            assert(k is Some);
            assert(k->0 == i);
        }
    }
}

/// The server announces that it takes changes of stretches and answers all requests. It announces
/// semantic tokens exactly if the configuration asks for highlights, and then with the token types
/// of the client, in the same order.
pub proof fn law_server_announces(config: ConfigView, capabilities: CapabilitiesView)
    ensures
        ({
            let answer = announced(config, capabilities);
            &&& answer.text_document_sync == TextDocumentSyncKind::Incremental
            &&& answer.hover_provider && answer.definition_provider && answer.references_provider
            &&& answer.completion_provider && answer.document_symbol_provider
            &&& answer.workspace_symbol_provider && answer.workspace_symbol_resolve_provider
            &&& answer.semantic_tokens is Some <==> config.symbols_highlight == Some(true)
            &&& answer.semantic_tokens is Some ==> {
                let options = answer.semantic_tokens->0;
                options.full && options.range && options.token_types == capabilities.token_types
            }
        }),
{
}

} // verus!
