//! The values that requests and answers are made of.

use std::path::PathBuf;
use vstd::prelude::*;

verus! {

/// A place in a document: a line and a UTF-16 unit in it, both counted from zero. In a change of
/// a document `character` counts characters instead.
#[derive(Debug, Clone, Copy, PartialEq, Eq, Structural)]
pub struct Position {
    pub line: u32,
    pub character: u32,
}

/// A stretch of a document; `end` is the first place behind it.
#[derive(Debug, Clone, Copy, PartialEq, Eq, Structural)]
pub struct Range {
    pub start: Position,
    pub end: Position,
}

/// A change of a document: the new text, and the stretch that it replaces (`None`: all of it). The
/// places of the stretch count the characters of a line, not its UTF-16 units.
#[derive(Debug)]
pub struct ContentChange {
    pub range: Option<Range>,
    pub text: String,
}

/// What a `ContentChange` says.
pub struct ChangeView {
    pub range: Option<Range>,
    pub text: Seq<char>,
}

impl View for ContentChange {
    type V = ChangeView;

    open spec fn view(&self) -> ChangeView {
        ChangeView { range: self.range, text: self.text@ }
    }
}

/// A stretch of a file.
#[derive(Debug, PartialEq, Eq)]
pub struct Location {
    pub uri: String,
    pub range: Range,
}

/// What a `Location` says.
pub struct LocationView {
    pub uri: Seq<char>,
    pub range: Range,
}

impl View for Location {
    type V = LocationView;

    open spec fn view(&self) -> LocationView {
        LocationView { uri: self.uri@, range: self.range }
    }
}

/// The views of a list of locations.
pub open spec fn location_views(locations: Seq<Location>) -> Seq<LocationView> {
    locations.map_values(|l: Location| l@)
}

/// A symbol that occurs in a document, and where.
#[derive(Debug, PartialEq, Eq)]
pub struct DocumentSymbol {
    pub name: String,
    pub range: Range,
}

/// What a `DocumentSymbol` says.
pub struct DocumentSymbolView {
    pub name: Seq<char>,
    pub range: Range,
}

impl View for DocumentSymbol {
    type V = DocumentSymbolView;

    open spec fn view(&self) -> DocumentSymbolView {
        DocumentSymbolView { name: self.name@, range: self.range }
    }
}

/// The views of a list of symbols in a document.
pub open spec fn document_symbol_views(symbols: Seq<DocumentSymbol>) -> Seq<DocumentSymbolView> {
    symbols.map_values(|s: DocumentSymbol| s@)
}

/// A symbol that a search found, and where its definition is shown.
#[derive(Debug, PartialEq, Eq)]
pub struct SymbolInformation {
    pub name: String,
    pub location: Location,
}

/// What a `SymbolInformation` says.
pub struct SymbolInformationView {
    pub name: Seq<char>,
    pub location: LocationView,
}

impl View for SymbolInformation {
    type V = SymbolInformationView;

    open spec fn view(&self) -> SymbolInformationView {
        SymbolInformationView { name: self.name@, location: self.location@ }
    }
}

/// The views of a list of symbols that a search found.
pub open spec fn symbol_information_views(symbols: Seq<SymbolInformation>) -> Seq<
    SymbolInformationView,
> {
    symbols.map_values(|s: SymbolInformation| s@)
}

/// A completion: the name, and what is told of it.
#[derive(Debug, PartialEq, Eq)]
pub struct CompletionItem {
    pub label: String,
    pub documentation: String,
}

/// What a `CompletionItem` says.
pub struct CompletionItemView {
    pub label: Seq<char>,
    pub documentation: Seq<char>,
}

impl View for CompletionItem {
    type V = CompletionItemView;

    open spec fn view(&self) -> CompletionItemView {
        CompletionItemView { label: self.label@, documentation: self.documentation@ }
    }
}

/// The views of a list of completions.
pub open spec fn completion_item_views(items: Seq<CompletionItem>) -> Seq<CompletionItemView> {
    items.map_values(|i: CompletionItem| i@)
}

/// A document that a request speaks of: its URL, and the path with all links resolved if the file
/// exists.
#[derive(Debug)]
pub struct TextDocument {
    pub url: String,
    pub canonical: Option<PathBuf>,
}

/// What a `TextDocument` says.
pub struct DocumentView {
    pub url: Seq<char>,
    pub canonical: Option<PathBuf>,
}

impl View for TextDocument {
    type V = DocumentView;

    open spec fn view(&self) -> DocumentView {
        DocumentView { url: self.url@, canonical: self.canonical }
    }
}

/// What a client can do with the symbols of a document.
#[derive(Debug)]
pub struct DocumentSymbolCapability {
    pub hierarchical_document_symbol_support: Option<bool>,
}

/// What a client can do with semantic tokens.
#[derive(Debug)]
pub struct SemanticTokensCapability {
    pub token_types: Vec<String>,
}

/// What a client can do with documents.
#[derive(Debug)]
pub struct TextDocumentCapabilities {
    pub document_symbol: Option<DocumentSymbolCapability>,
    pub semantic_tokens: Option<SemanticTokensCapability>,
}

/// What a client can do with the symbols that a search found.
#[derive(Debug)]
pub struct WorkspaceSymbolCapability {
    /// Whether it asks again for what it needs of a symbol.
    pub resolve_support: bool,
}

/// What a client can do with the workspace.
#[derive(Debug)]
pub struct WorkspaceCapabilities {
    pub symbol: Option<WorkspaceSymbolCapability>,
}

/// What a client can do.
#[derive(Debug)]
pub struct ClientCapabilities {
    pub text_document: Option<TextDocumentCapabilities>,
    pub workspace: Option<WorkspaceCapabilities>,
}

/// The characters of texts.
pub open spec fn texts_view(texts: Seq<String>) -> Seq<Seq<char>> {
    texts.map_values(|t: String| t@)
}

/// What the server needs to know of a client. What a client does not tell, it can not do.
#[verifier::ext_equal]
pub struct CapabilitiesView {
    /// It shows the symbols of a document as a tree.
    pub hierarchical_symbols: bool,
    /// The token types that it knows.
    pub token_types: Seq<Seq<char>>,
    /// It asks again for what it needs of a symbol.
    pub resolves_symbols: bool,
}

impl View for ClientCapabilities {
    type V = CapabilitiesView;

    open spec fn view(&self) -> CapabilitiesView {
        CapabilitiesView {
            hierarchical_symbols: match self.text_document {
                Some(d) => match d.document_symbol {
                    Some(s) => s.hierarchical_document_symbol_support == Some(true),
                    None => false,
                },
                None => false,
            },
            token_types: match self.text_document {
                Some(d) => match d.semantic_tokens {
                    Some(t) => texts_view(t.token_types@),
                    None => seq![],
                },
                None => seq![],
            },
            resolves_symbols: match self.workspace {
                Some(w) => match w.symbol {
                    Some(s) => s.resolve_support,
                    None => false,
                },
                None => false,
            },
        }
    }
}

/// A copy of texts.
pub fn copy_texts(texts: &Vec<String>) -> (r: Vec<String>)
    ensures
        texts_view(r@) == texts_view(texts@),
{
    let ghost all = texts_view(texts@);
    let mut r: Vec<String> = Vec::with_capacity(texts.len());
    let mut i: usize = 0;
    while i < texts.len()
        invariant
            i <= texts.len(),
            all == texts_view(texts@),
            texts_view(r@) == all.take(i as int),
        decreases texts.len() - i,
    {
        let ghost old_r = r@;
        r.push(texts[i].clone());
        proof {
            assert(texts_view(r@) =~= texts_view(old_r).push(all[i as int]));
            assert(all.take(i + 1) =~= all.take(i as int).push(all[i as int]));
        }
        i += 1;
    }
    proof {
        assert(all.take(i as int) =~= all);
    }
    r
}

impl ClientCapabilities {
    /// Whether the client shows the symbols of a document as a tree.
    pub fn hierarchical_symbols(&self) -> (r: bool)
        ensures
            r == self@.hierarchical_symbols,
    {
        match &self.text_document {
            Some(d) => match &d.document_symbol {
                Some(s) => match s.hierarchical_document_symbol_support {
                    Some(supported) => supported,
                    None => false,
                },
                None => false,
            },
            None => false,
        }
    }

    /// The token types that the client knows.
    pub fn token_types(&self) -> (r: Vec<String>)
        ensures
            texts_view(r@) == self@.token_types,
    {
        match &self.text_document {
            Some(d) => match &d.semantic_tokens {
                Some(t) => copy_texts(&t.token_types),
                None => Vec::new(),
            },
            None => Vec::new(),
        }
    }

    /// Whether the client asks again for what it needs of a symbol.
    pub fn resolves_symbols(&self) -> (r: bool)
        ensures
            r == self@.resolves_symbols,
    {
        match &self.workspace {
            Some(w) => match &w.symbol {
                Some(s) => s.resolve_support,
                None => false,
            },
            None => false,
        }
    }
}

impl Default for ClientCapabilities {
    fn default() -> (r: Self)
        ensures
            r@ == (CapabilitiesView {
                hierarchical_symbols: false,
                token_types: seq![],
                resolves_symbols: false,
            }),
    {
        ClientCapabilities { text_document: None, workspace: None }
    }
}

/// How a server is told of the changes of a document.
#[derive(Debug, Clone, Copy, PartialEq, Eq, Structural)]
pub enum TextDocumentSyncKind {
    /// By the whole text.
    Full,
    /// By the stretches that are replaced.
    Incremental,
}

/// The semantic tokens that a server tells.
#[derive(Debug, PartialEq, Eq)]
pub struct SemanticTokensOptions {
    /// The token types, by which the tokens are numbered.
    pub token_types: Vec<String>,
    /// Those of a document.
    pub full: bool,
    /// Those of a part of a document.
    pub range: bool,
}

/// What `SemanticTokensOptions` say.
pub struct SemanticTokensOptionsView {
    pub token_types: Seq<Seq<char>>,
    pub full: bool,
    pub range: bool,
}

impl View for SemanticTokensOptions {
    type V = SemanticTokensOptionsView;

    open spec fn view(&self) -> SemanticTokensOptionsView {
        SemanticTokensOptionsView {
            token_types: texts_view(self.token_types@),
            full: self.full,
            range: self.range,
        }
    }
}

/// What a server can do.
#[derive(Debug, PartialEq, Eq)]
pub struct ServerCapabilities {
    pub text_document_sync: TextDocumentSyncKind,
    pub hover_provider: bool,
    pub definition_provider: bool,
    pub references_provider: bool,
    pub completion_provider: bool,
    pub document_symbol_provider: bool,
    pub workspace_symbol_provider: bool,
    /// Whether it tells more of a symbol that a search found when it is asked.
    pub workspace_symbol_resolve_provider: bool,
    pub semantic_tokens: Option<SemanticTokensOptions>,
}

/// What `ServerCapabilities` say.
pub struct ServerCapabilitiesView {
    pub text_document_sync: TextDocumentSyncKind,
    pub hover_provider: bool,
    pub definition_provider: bool,
    pub references_provider: bool,
    pub completion_provider: bool,
    pub document_symbol_provider: bool,
    pub workspace_symbol_provider: bool,
    pub workspace_symbol_resolve_provider: bool,
    pub semantic_tokens: Option<SemanticTokensOptionsView>,
}

impl View for ServerCapabilities {
    type V = ServerCapabilitiesView;

    open spec fn view(&self) -> ServerCapabilitiesView {
        ServerCapabilitiesView {
            text_document_sync: self.text_document_sync,
            hover_provider: self.hover_provider,
            definition_provider: self.definition_provider,
            references_provider: self.references_provider,
            completion_provider: self.completion_provider,
            document_symbol_provider: self.document_symbol_provider,
            workspace_symbol_provider: self.workspace_symbol_provider,
            workspace_symbol_resolve_provider: self.workspace_symbol_resolve_provider,
            semantic_tokens: match self.semantic_tokens {
                Some(options) => Some(options@),
                None => None,
            },
        }
    }
}

/// Lists are taken as they are: item by item, each with the characters of its texts and with its
/// range.
pub proof fn law_lists_are_taken_as_they_are(
    changes: Seq<ContentChange>,
    locations: Seq<Location>,
    symbols: Seq<DocumentSymbol>,
    found: Seq<SymbolInformation>,
    items: Seq<CompletionItem>,
    document: TextDocument,
    i: int,
)
    ensures
        document@.url == document.url@,
        document@.canonical == document.canonical,
        location_views(locations).len() == locations.len(),
        document_symbol_views(symbols).len() == symbols.len(),
        symbol_information_views(found).len() == found.len(),
        completion_item_views(items).len() == items.len(),
        0 <= i < changes.len() ==> changes[i]@.range == changes[i].range && changes[i]@.text
            == changes[i].text@,
        0 <= i < locations.len() ==> {
            &&& location_views(locations)[i].uri == locations[i].uri@
            &&& location_views(locations)[i].range == locations[i].range
        },
        0 <= i < symbols.len() ==> {
            &&& document_symbol_views(symbols)[i].name == symbols[i].name@
            &&& document_symbol_views(symbols)[i].range == symbols[i].range
        },
        0 <= i < found.len() ==> {
            &&& symbol_information_views(found)[i].name == found[i].name@
            &&& symbol_information_views(found)[i].location.uri == found[i].location.uri@
            &&& symbol_information_views(found)[i].location.range == found[i].location.range
        },
        0 <= i < items.len() ==> {
            &&& completion_item_views(items)[i].label == items[i].label@
            &&& completion_item_views(items)[i].documentation == items[i].documentation@
        },
{
}

/// What a client can do is what it has told, and nothing that it has not told.
pub proof fn law_client_can_do_what_it_told(client: ClientCapabilities, i: int)
    ensures
        client@.hierarchical_symbols <==> {
            &&& client.text_document is Some
            &&& client.text_document->0.document_symbol is Some
            &&& client.text_document->0.document_symbol->0.hierarchical_document_symbol_support
                == Some(true)
        },
        client@.resolves_symbols <==> {
            &&& client.workspace is Some
            &&& client.workspace->0.symbol is Some
            &&& client.workspace->0.symbol->0.resolve_support
        },
        client.text_document is Some && client.text_document->0.semantic_tokens is Some ==> {
            let told = client.text_document->0.semantic_tokens->0.token_types@;
            &&& client@.token_types.len() == told.len()
            &&& 0 <= i < told.len() ==> client@.token_types[i] == told[i]@
        },
        client.text_document is None || client.text_document->0.semantic_tokens is None
            ==> client@.token_types.len() == 0,
{
}

/// What a server announces is what its answer says: each thing that it can do, and the token types
/// in their order.
pub proof fn law_announcement_is_taken_as_it_is(answer: ServerCapabilities, i: int)
    ensures
        answer@.text_document_sync == answer.text_document_sync,
        answer@.hover_provider == answer.hover_provider,
        answer@.definition_provider == answer.definition_provider,
        answer@.references_provider == answer.references_provider,
        answer@.completion_provider == answer.completion_provider,
        answer@.document_symbol_provider == answer.document_symbol_provider,
        answer@.workspace_symbol_provider == answer.workspace_symbol_provider,
        answer@.workspace_symbol_resolve_provider == answer.workspace_symbol_resolve_provider,
        answer@.semantic_tokens is Some <==> answer.semantic_tokens is Some,
        answer.semantic_tokens is Some ==> {
            let told = answer.semantic_tokens->0;
            let taken = answer@.semantic_tokens->0;
            &&& taken.full == told.full && taken.range == told.range
            &&& taken.token_types.len() == told.token_types@.len()
            &&& 0 <= i < told.token_types@.len() ==> taken.token_types[i] == told.token_types@[i]@
        },
{
}

} // verus!
