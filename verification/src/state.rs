//! What the server knows: its configuration, the symbols and the open documents.

use crate::config::{Config, ConfigView};
use crate::documents::{
    documents_get, documents_insert, documents_new, documents_remove, known_paths, open_texts,
    paths_get, paths_insert, paths_new,
};
use crate::error::Error;
use crate::ident::IdentPattern;
use crate::paths::{
    file_path, file_path_of, path_text, path_text_of, simplified_path, simplified_path_of,
};
use crate::protocol::{
    CapabilitiesView, ChangeView, ClientCapabilities, ContentChange, DocumentView, Range,
    TextDocument,
};
use crate::rope::{
    all_edited, can_edit, change_views, changes_fit, edit_all, is_start_of_line,
    law_changes_in_order, law_edit_at_characters, law_line_ends_become_unix, law_single_change,
    law_unix_text_is_kept, rope_from_str, rope_text, to_unix, unix_text,
};
use crate::search::{law_replace_absent, matches_from};
use crate::symbols::{
    filled, good_rows, insert_rows, lists, rows_result, symbol_table, symbol_views, symbols_get,
    symbols_list, symbols_new, InfoView, Symbol, SymbolInfo, SymbolRow, SymbolView,
};
use dashmap::DashMap;
use ropey::Rope;
use std::path::PathBuf;
use vstd::prelude::*;

verus! {

/// The state of the server.
pub struct ServerState {
    config: Config,
    cache_dir: PathBuf,
    symbols: DashMap<String, SymbolInfo>,
    url_to_path: DashMap<String, String>,
    text_documents: DashMap<String, Rope>,
    client_capabilities: Option<ClientCapabilities>,
    token_type_highlight_idx: Option<u32>,
    ident: IdentPattern,
}

/// What the state of the server is.
#[verifier::ext_equal]
pub struct StateView {
    pub config: ConfigView,
    /// The folder that definitions are written to.
    pub cache_dir: PathBuf,
    /// The symbols, by name.
    pub symbols: Map<Seq<char>, InfoView>,
    /// The paths that URLs are known to stand for.
    pub url_to_path: Map<Seq<char>, Seq<char>>,
    /// The texts of the open documents, by path.
    pub text_documents: Map<Seq<char>, Seq<char>>,
    pub client_capabilities: Option<CapabilitiesView>,
    /// The token type of symbols in a document.
    pub token_type_highlight_idx: Option<u32>,
}

impl View for ServerState {
    type V = StateView;

    closed spec fn view(&self) -> StateView {
        StateView {
            config: self.config@,
            cache_dir: self.cache_dir,
            symbols: symbol_table(self.symbols),
            url_to_path: known_paths(self.url_to_path),
            text_documents: open_texts(self.text_documents),
            client_capabilities: match self.client_capabilities {
                Some(capabilities) => Some(capabilities@),
                None => None,
            },
            token_type_highlight_idx: self.token_type_highlight_idx,
        }
    }
}

/// The state of a server that has just been started.
pub open spec fn initial(config: ConfigView, cache_dir: PathBuf) -> StateView {
    StateView {
        config,
        cache_dir,
        symbols: Map::empty(),
        url_to_path: Map::empty(),
        text_documents: Map::empty(),
        client_capabilities: None,
        token_type_highlight_idx: None,
    }
}

/// What a client can do that has told nothing.
pub open spec fn no_capabilities() -> CapabilitiesView {
    CapabilitiesView { hierarchical_symbols: false, token_types: seq![], resolves_symbols: false }
}

/// The state when it is taken that a client that has told nothing can do nothing.
pub open spec fn capabilities_known(state: StateView) -> StateView {
    if state.client_capabilities is None {
        StateView { client_capabilities: Some(no_capabilities()), ..state }
    } else {
        state
    }
}

/// The path of the file that a URL names, in its simple form.
pub open spec fn simple_path_of(url: Seq<char>) -> Option<PathBuf> {
    match file_path_of(url) {
        Some(path) => Some(simplified_path_of(path)),
        None => None,
    }
}

/// The path of a document: the one that its URL is known to stand for, else that of the file it
/// names, with its links resolved if the file exists. It is held as the URL of the file.
pub open spec fn path_of(state: StateView, document: DocumentView) -> Result<Seq<char>, Error> {
    if state.url_to_path.dom().contains(document.url) {
        Ok(state.url_to_path[document.url])
    } else {
        let text = match (simple_path_of(document.url), document.canonical) {
            (None, _) => None,
            (Some(_), Some(canonical)) => path_text_of(canonical),
            (Some(path), None) => path_text_of(path),
        };
        match text {
            Some(text) => Ok(text),
            None => Err(Error::NotAFileUrl),
        }
    }
}

/// The state after the path of a document has been looked up: it is known from then on.
pub open spec fn looked_up(state: StateView, document: DocumentView) -> StateView {
    match path_of(state, document) {
        Ok(path) => StateView {
            url_to_path: state.url_to_path.insert(document.url, path),
            ..state
        },
        Err(_) => state,
    }
}

/// The text of a document.
pub open spec fn text_of(state: StateView, document: DocumentView) -> Result<Seq<char>, Error> {
    match path_of(state, document) {
        Err(e) => Err(e),
        Ok(path) => if state.text_documents.dom().contains(path) {
            Ok(state.text_documents[path])
        } else {
            Err(Error::DocumentNotFound)
        },
    }
}

/// Whether changes replace all of a document.
pub open spec fn replaces_all(changes: Seq<ChangeView>) -> bool {
    changes.len() == 1 && changes[0].range is None
}

/// Whether changes can be made to a document, provided that it is open: they replace all of it,
/// or stretches that lie in it.
pub open spec fn can_be_set(
    state: StateView,
    document: DocumentView,
    changes: Seq<ChangeView>,
) -> bool {
    !replaces_all(changes) && text_of(state, document) is Ok ==> changes_fit(
        text_of(state, document)->Ok_0,
        changes,
    )
}

/// The text of a document after changes.
pub open spec fn text_set(
    state: StateView,
    document: DocumentView,
    changes: Seq<ChangeView>,
) -> Result<Seq<char>, Error> {
    if replaces_all(changes) {
        match path_of(state, document) {
            Ok(_) => Ok(unix_text(changes[0].text)),
            Err(e) => Err(e),
        }
    } else {
        match text_of(state, document) {
            Ok(text) => Ok(all_edited(text, changes)),
            Err(e) => Err(e),
        }
    }
}

/// The state after a document has been changed.
pub open spec fn document_set(
    state: StateView,
    document: DocumentView,
    changes: Seq<ChangeView>,
) -> StateView {
    match text_set(state, document, changes) {
        Ok(text) => StateView {
            text_documents: state.text_documents.insert(path_of(state, document)->Ok_0, text),
            ..looked_up(state, document)
        },
        Err(_) => looked_up(state, document),
    }
}

/// The state after a document has been closed.
pub open spec fn document_removed(state: StateView, document: DocumentView) -> StateView {
    match path_of(state, document) {
        Ok(path) => StateView {
            text_documents: state.text_documents.remove(path),
            ..looked_up(state, document)
        },
        Err(_) => state,
    }
}

/// Why something can not be told, if it can not.
pub open spec fn failure<T>(r: Result<T, Error>) -> Result<(), Error> {
    match r {
        Ok(_) => Ok(()),
        Err(e) => Err(e),
    }
}

/// The path of the file that a URL names, in its simple form.
fn simple_path(url: &str) -> (r: Option<PathBuf>)
    ensures
        r == simple_path_of(url@),
{
    match file_path(url) {
        Some(path) => Some(simplified_path(path)),
        None => None,
    }
}

impl ServerState {
    /// The state of a server that has just been started.
    pub fn new(config: Config, cache_dir: PathBuf) -> (r: Self)
        ensures
            r@ == initial(config@, cache_dir),
    {
        let state = ServerState {
            config,
            cache_dir,
            symbols: symbols_new(),
            url_to_path: paths_new(),
            text_documents: documents_new(),
            client_capabilities: None,
            token_type_highlight_idx: None,
            ident: IdentPattern::new(),
        };
        proof {
            assert(state@ =~= initial(config@, cache_dir));
        }
        state
    }

    /// The configuration.
    pub fn config(&self) -> (r: &Config)
        ensures
            r@ == self@.config,
    {
        &self.config
    }

    /// The folder that definitions are written to.
    pub fn cache_dir(&self) -> (r: &PathBuf)
        ensures
            *r == self@.cache_dir,
    {
        &self.cache_dir
    }

    /// The pattern of an identifier that the state was made with.
    pub closed spec fn ident_pattern(&self) -> IdentPattern {
        self.ident
    }

    /// The pattern of an identifier.
    pub(crate) fn ident(&self) -> (r: &IdentPattern)
        ensures
            *r == self.ident_pattern(),
    {
        &self.ident
    }

    /// The token type of symbols in a document.
    pub fn token_type_highlight_idx(&self) -> (r: Option<u32>)
        ensures
            r == self@.token_type_highlight_idx,
    {
        self.token_type_highlight_idx
    }

    /// What the client can do, if it has told.
    pub fn client_capabilities(&self) -> (r: Option<&ClientCapabilities>)
        ensures
            r is Some <==> self@.client_capabilities is Some,
            r is Some ==> Some(r->0@) == self@.client_capabilities,
    {
        match &self.client_capabilities {
            Some(capabilities) => Some(capabilities),
            None => None,
        }
    }

    /// Takes it that the client can do nothing, unless it has told.
    pub fn init_capabilities(&mut self)
        ensures
            final(self)@ == capabilities_known(old(self)@),
    {
        if self.client_capabilities.is_none() {
            self.client_capabilities = Some(ClientCapabilities::default());
        }
    }

    /// Notes what the client can do, and the token type of symbols if there is one.
    pub fn set_client(&mut self, capabilities: ClientCapabilities, highlight_idx: Option<u32>)
        ensures
            final(self)@ == (StateView {
                client_capabilities: Some(capabilities@),
                token_type_highlight_idx: if highlight_idx is Some {
                    highlight_idx
                } else {
                    old(self)@.token_type_highlight_idx
                },
                ..old(self)@
            }),
    {
        self.client_capabilities = Some(capabilities);
        if highlight_idx.is_some() {
            self.token_type_highlight_idx = highlight_idx;
        }
    }

    /// The symbol of that name.
    pub fn symbol(&self, name: &str) -> (r: Option<Symbol>)
        ensures
            r is Some <==> self@.symbols.dom().contains(name@),
            r is Some ==> r->0@ == (SymbolView { name: name@, info: self@.symbols[name@] }),
    {
        symbols_get(&self.symbols, name)
    }

    /// All symbols, in some order.
    pub fn all_symbols(&self) -> (r: Vec<Symbol>)
        ensures
            lists(self@.symbols, symbol_views(r@)),
    {
        symbols_list(&self.symbols)
    }

    /// The path whose links are to be resolved before the document of a URL is looked up: `None`
    /// if the path of the document is known, or if the URL names no file.
    pub fn path_to_resolve(&self, url: &str) -> (r: Option<PathBuf>)
        ensures
            r == (if self@.url_to_path.dom().contains(url@) {
                None
            } else {
                simple_path_of(url@)
            }),
    {
        match paths_get(&self.url_to_path, url) {
            Some(_) => None,
            None => simple_path(url),
        }
    }

    /// The path that a URL is known to stand for.
    pub fn known_path(&self, url: &str) -> (r: Option<String>)
        ensures
            r is Some <==> self@.url_to_path.dom().contains(url@),
            r is Some ==> r->0@ == self@.url_to_path[url@],
    {
        paths_get(&self.url_to_path, url)
    }

    /// The path of a document.
    fn find_path(&self, document: &TextDocument) -> (r: Result<String, Error>)
        ensures
            r is Ok ==> Ok::<Seq<char>, Error>(r->Ok_0@) == path_of(self@, document@),
            r is Err ==> Err::<Seq<char>, Error>(r->Err_0) == path_of(self@, document@),
    {
        if let Some(path) = paths_get(&self.url_to_path, document.url.as_str()) {
            return Ok(path);
        }
        let text = match (simple_path(document.url.as_str()), &document.canonical) {
            (None, _) => None,
            (Some(_), Some(canonical)) => path_text(canonical),
            (Some(path), None) => path_text(&path),
        };
        match text {
            Some(text) => Ok(text),
            None => Err(Error::NotAFileUrl),
        }
    }

    /// The path of a document, which is known from then on.
    pub fn url_to_path(&mut self, document: &TextDocument) -> (r: Result<String, Error>)
        ensures
            r is Ok ==> Ok::<Seq<char>, Error>(r->Ok_0@) == path_of(old(self)@, document@),
            r is Err ==> Err::<Seq<char>, Error>(r->Err_0) == path_of(old(self)@, document@),
            final(self)@ == looked_up(old(self)@, document@),
    {
        let path = match self.find_path(document) {
            Ok(path) => path,
            Err(e) => {
                return Err(e);
            },
        };
        paths_insert(&mut self.url_to_path, document.url.clone(), path.clone());
        Ok(path)
    }

    /// Changes a document: opens it with a new text, or replaces stretches of the text.
    pub fn set_text_document(
        &mut self,
        document: &TextDocument,
        changes: &Vec<ContentChange>,
    ) -> (r: Result<(), Error>)
        requires
            can_be_set(old(self)@, document@, change_views(changes@)),
        ensures
            r == failure(text_set(old(self)@, document@, change_views(changes@))),
            final(self)@ == document_set(old(self)@, document@, change_views(changes@)),
    {
        let ghost views = change_views(changes@);
        let path = match self.url_to_path(document) {
            Ok(path) => path,
            Err(e) => {
                return Err(e);
            },
        };
        if changes.len() == 1 && changes[0].range.is_none() {
            proof {
                assert(views[0] == changes@[0]@);
            }
            let text = to_unix(changes[0].text.as_str());
            let rope = rope_from_str(text.as_str());
            documents_insert(&mut self.text_documents, path, rope);
        } else {
            proof {
                if changes@.len() == 1 {
                    assert(views[0] == changes@[0]@);
                }
            }
            let mut rope = match documents_get(&self.text_documents, path.as_str()) {
                Some(rope) => rope,
                None => {
                    return Err(Error::DocumentNotFound);
                },
            };
            edit_all(&mut rope, changes);
            documents_insert(&mut self.text_documents, path, rope);
        }
        Ok(())
    }

    /// Changes a document if the changes can be made to it; else `None`, and nothing is changed.
    pub fn try_set_text_document(
        &mut self,
        document: &TextDocument,
        changes: &Vec<ContentChange>,
    ) -> (r: Option<Result<(), Error>>)
        ensures
            r is Some <==> can_be_set(old(self)@, document@, change_views(changes@)),
            r is Some ==> r->0 == failure(
                text_set(old(self)@, document@, change_views(changes@)),
            ),
            r is Some ==> final(self)@ == document_set(
                old(self)@,
                document@,
                change_views(changes@),
            ),
            r is None ==> final(self)@ == old(self)@,
    {
        let ghost views = change_views(changes@);
        if let Ok(path) = self.find_path(document) {
            let whole = changes.len() == 1 && changes[0].range.is_none();
            proof {
                if changes@.len() == 1 {
                    assert(views[0] == changes@[0]@);
                }
            }
            if !whole {
                if let Some(rope) = documents_get(&self.text_documents, path.as_str()) {
                    if !can_edit(&rope, changes) {
                        return None;
                    }
                }
            }
        }
        Some(self.set_text_document(document, changes))
    }

    /// The text of a document.
    pub fn get_text_document(&mut self, document: &TextDocument) -> (r: Result<Rope, Error>)
        ensures
            r is Ok ==> Ok::<Seq<char>, Error>(rope_text(r->Ok_0)) == text_of(
                old(self)@,
                document@,
            ),
            r is Err ==> Err::<Seq<char>, Error>(r->Err_0) == text_of(old(self)@, document@),
            final(self)@ == looked_up(old(self)@, document@),
    {
        let path = match self.url_to_path(document) {
            Ok(path) => path,
            Err(e) => {
                return Err(e);
            },
        };
        match documents_get(&self.text_documents, path.as_str()) {
            Some(rope) => Ok(rope),
            None => Err(Error::DocumentNotFound),
        }
    }

    /// Closes a document; it may be one that is not open.
    pub fn remove_text_document(&mut self, document: &TextDocument) -> (r: Result<(), Error>)
        ensures
            r == failure(path_of(old(self)@, document@)),
            final(self)@ == document_removed(old(self)@, document@),
    {
        let path = match self.url_to_path(document) {
            Ok(path) => path,
            Err(e) => {
                return Err(e);
            },
        };
        documents_remove(&mut self.text_documents, path.as_str());
        Ok(())
    }

    /// Enters the rows that the query gave, up to the first that has no identifier.
    pub fn initialize_symbols(&mut self, rows: &Vec<SymbolRow>) -> (r: Result<(), Error>)
        ensures
            r == rows_result(rows@),
            final(self)@ == (StateView {
                symbols: filled(old(self)@.symbols, rows@.take(good_rows(rows@) as int)),
                ..old(self)@
            }),
    {
        insert_rows(&mut self.symbols, rows)
    }
}

/// A URL stands for the same path from the first time on that it is looked up, whatever becomes
/// of the file.
pub proof fn law_path_is_remembered(state: StateView, first: DocumentView, later: DocumentView)
    requires
        first.url == later.url,
        path_of(state, first) is Ok,
    ensures
        path_of(looked_up(state, first), later) == path_of(state, first),
{
}

/// To look up a URL changes nothing for the others.
pub proof fn law_other_paths_are_kept(state: StateView, document: DocumentView, other: DocumentView)
    requires
        document.url != other.url,
    ensures
        path_of(looked_up(state, document), other) == path_of(state, other),
{
}

/// The text that a document is given is the one that is read, through whatever URL stands for
/// the same path.
pub proof fn law_document_is_read_back(
    state: StateView,
    document: DocumentView,
    changes: Seq<ChangeView>,
    reader: DocumentView,
)
    requires
        text_set(state, document, changes) is Ok,
        path_of(document_set(state, document, changes), reader) == path_of(state, document),
    ensures
        text_of(document_set(state, document, changes), reader) == text_set(
            state,
            document,
            changes,
        ),
{
}

/// A document that is opened with a text without CR LF has that text.
pub proof fn law_opened_document_is_read_back(
    state: StateView,
    document: DocumentView,
    text: Seq<char>,
)
    requires
        path_of(state, document) is Ok,
        matches_from(text, seq!['\r', '\n'], 0).len() == 0,
    ensures
        text_of(
            document_set(state, document, seq![ChangeView { range: None, text }]),
            document,
        ) == Ok::<Seq<char>, Error>(text),
{
    law_replace_absent(text, seq!['\r', '\n'], seq!['\n'], 0);
    assert(text.skip(0) =~= text);
}

/// To change or close a document changes no other.
pub proof fn law_other_documents_are_kept(
    state: StateView,
    document: DocumentView,
    changes: Seq<ChangeView>,
    other: DocumentView,
)
    requires
        document.url != other.url,
        path_of(state, document) != path_of(state, other),
    ensures
        text_of(document_set(state, document, changes), other) == text_of(state, other),
        text_of(document_removed(state, document), other) == text_of(state, other),
{
}

/// A document that has been closed is not open.
pub proof fn law_closed_document_is_gone(state: StateView, document: DocumentView)
    requires
        path_of(state, document) is Ok,
    ensures
        text_of(document_removed(state, document), document) == Err::<Seq<char>, Error>(
            Error::DocumentNotFound,
        ),
{
}

/// A document that is changed at a stretch has its text with the new text in the place of the
/// stretch: what stands up to the one place and from the other place on is kept. Places count the
/// characters behind the start of their line.
pub proof fn law_changed_document_is_read_back(
    state: StateView,
    document: DocumentView,
    t: Seq<char>,
    range: Range,
    text: Seq<char>,
    start_of_first: int,
    start_of_last: int,
)
    requires
        text_of(state, document) == Ok::<Seq<char>, Error>(t),
        is_start_of_line(t, range.start.line as int, start_of_first),
        is_start_of_line(t, range.end.line as int, start_of_last),
        start_of_first + range.start.character <= start_of_last + range.end.character <= t.len(),
        forall|i: int|
            0 <= i < text.len() - 1 && text[i] == '\r' ==> #[trigger] text[i + 1] != '\n',
    ensures
        can_be_set(state, document, seq![ChangeView { range: Some(range), text }]),
        failure(text_set(state, document, seq![ChangeView { range: Some(range), text }])) is Ok,
        text_of(
            document_set(state, document, seq![ChangeView { range: Some(range), text }]),
            document,
        ) == Ok::<Seq<char>, Error>(
            t.take(start_of_first + range.start.character) + text + t.skip(
                start_of_last + range.end.character,
            ),
        ),
{
    law_edit_at_characters(t, range, text, start_of_first, start_of_last);
    law_unix_text_is_kept(text);
    law_single_change(t, range, text);
}

/// A document that is opened or changed as a whole has the new text, with LF for each CR LF,
/// whatever it had before.
pub proof fn law_replaced_document_is_read_back(
    state: StateView,
    document: DocumentView,
    text: Seq<char>,
    before: Seq<char>,
    after: Seq<char>,
)
    requires
        path_of(state, document) is Ok,
    ensures
        can_be_set(state, document, seq![ChangeView { range: None, text }]),
        failure(text_set(state, document, seq![ChangeView { range: None, text }])) is Ok,
        (forall|i: int|
            0 <= i < text.len() - 1 && text[i] == '\r' ==> #[trigger] text[i + 1] != '\n')
            ==> text_of(
            document_set(state, document, seq![ChangeView { range: None, text }]),
            document,
        ) == Ok::<Seq<char>, Error>(text),
        text == before + seq!['\r', '\n'] + after ==> text_of(
            document_set(state, document, seq![ChangeView { range: None, text }]),
            document,
        ) == Ok::<Seq<char>, Error>(
            text_of(
                document_set(state, document, seq![ChangeView { range: None, text: before }]),
                document,
            )->Ok_0 + seq!['\n'] + text_of(
                document_set(state, document, seq![ChangeView { range: None, text: after }]),
                document,
            )->Ok_0,
        ),
{
    if forall|i: int|
        0 <= i < text.len() - 1 && text[i] == '\r' ==> #[trigger] text[i + 1] != '\n' {
        law_unix_text_is_kept(text);
    }
    law_line_ends_become_unix(before, after);
}

/// The changes of one message are made one after the other, as if each came in a message of its
/// own.
pub proof fn law_changes_come_one_by_one(
    state: StateView,
    document: DocumentView,
    first: Seq<ChangeView>,
    rest: Seq<ChangeView>,
)
    requires
        text_of(state, document) is Ok,
        !(first.len() == 1 && first[0].range is None),
        !(rest.len() == 1 && rest[0].range is None),
    ensures
        can_be_set(state, document, first + rest) <==> can_be_set(state, document, first)
            && can_be_set(document_set(state, document, first), document, rest),
        text_of(document_set(state, document, first + rest), document) == text_of(
            document_set(document_set(state, document, first), document, rest),
            document,
        ),
        text_of(document_set(state, document, seq![]), document) == text_of(state, document),
{
    let t = text_of(state, document)->Ok_0;
    law_changes_in_order(t, first, rest);
    if first.len() == 0 {
        assert(first + rest =~= rest);
    }
    if rest.len() == 0 {
        assert(first + rest =~= first);
    }
    assert(text_of(document_set(state, document, first), document) == Ok::<Seq<char>, Error>(
        all_edited(t, first),
    ));
    assert(all_edited(t, Seq::<ChangeView>::empty()) == t);
}

/// Changes of stretches are refused for a document that is not open, and nothing is changed then.
pub proof fn law_closed_document_is_not_changed(
    state: StateView,
    document: DocumentView,
    changes: Seq<ChangeView>,
)
    requires
        !(changes.len() == 1 && changes[0].range is None),
        text_of(state, document) is Err,
    ensures
        can_be_set(state, document, changes),
        failure(text_set(state, document, changes)) == Err::<(), Error>(
            text_of(state, document)->Err_0,
        ),
        document_set(state, document, changes).text_documents == state.text_documents,
{
}

/// The path of a document is the one that its URL is known to stand for. Else it is that of the
/// file that the URL names: with its links resolved, or as it is if it could not be resolved. A
/// URL that names no file has none, nor has one whose path can not be written as a URL.
pub proof fn law_path_of_document(state: StateView, document: DocumentView)
    ensures
        state.url_to_path.dom().contains(document.url) ==> path_of(state, document) == Ok::<
            Seq<char>,
            Error,
        >(state.url_to_path[document.url]),
        !state.url_to_path.dom().contains(document.url) && file_path_of(document.url) is None
            ==> path_of(state, document) == Err::<Seq<char>, Error>(Error::NotAFileUrl),
        !state.url_to_path.dom().contains(document.url) && file_path_of(document.url) is Some
            && document.canonical is Some && path_text_of(document.canonical->0) is Some
            ==> path_of(state, document) == Ok::<Seq<char>, Error>(
            path_text_of(document.canonical->0)->0,
        ),
        !state.url_to_path.dom().contains(document.url) && document.canonical is Some
            && path_text_of(document.canonical->0) is None ==> path_of(state, document) == Err::<
            Seq<char>,
            Error,
        >(Error::NotAFileUrl),
        !state.url_to_path.dom().contains(document.url) && file_path_of(document.url) is Some
            && document.canonical is None && path_text_of(
            simplified_path_of(file_path_of(document.url)->0),
        ) is Some ==> path_of(state, document) == Ok::<Seq<char>, Error>(
            path_text_of(simplified_path_of(file_path_of(document.url)->0))->0,
        ),
        !state.url_to_path.dom().contains(document.url) && file_path_of(document.url) is Some
            && document.canonical is None && path_text_of(
            simplified_path_of(file_path_of(document.url)->0),
        ) is None ==> path_of(state, document) == Err::<Seq<char>, Error>(Error::NotAFileUrl),
{
}

/// The text of a document is the one that is held for its path. A document without a path, or
/// whose path has no text, has none.
pub proof fn law_text_of_document(state: StateView, document: DocumentView)
    ensures
        match path_of(state, document) {
            Ok(path) => {
                let text = text_of(state, document);
                &&& state.text_documents.dom().contains(path) ==> text == Ok::<Seq<char>, Error>(
                    state.text_documents[path],
                )
                &&& !state.text_documents.dom().contains(path) ==> text == Err::<Seq<char>, Error>(
                    Error::DocumentNotFound,
                )
            },
            Err(e) => text_of(state, document) == Err::<Seq<char>, Error>(e),
        },
{
}

/// To look up, change or close a document changes nothing that is known of symbols, of the client
/// or of the configuration, and of paths only that its own is known from then on. To look one up
/// changes no text.
pub proof fn law_documents_keep_the_rest(
    state: StateView,
    document: DocumentView,
    changes: Seq<ChangeView>,
    after: StateView,
)
    requires
        ({
            ||| after == looked_up(state, document)
            ||| after == document_set(state, document, changes)
            ||| after == document_removed(state, document)
        }),
    ensures
        after.config == state.config,
        after.cache_dir == state.cache_dir,
        after.symbols == state.symbols,
        after.client_capabilities == state.client_capabilities,
        after.token_type_highlight_idx == state.token_type_highlight_idx,
        path_of(state, document) is Ok ==> after.url_to_path == state.url_to_path.insert(
            document.url,
            path_of(state, document)->Ok_0,
        ),
        path_of(state, document) is Err ==> after == state,
        looked_up(state, document).text_documents == state.text_documents,
{
}

/// A client that has told what it can do is taken at its word; of one that has not it is taken
/// that it can do nothing. Nothing else is changed.
pub proof fn law_client_is_taken_at_its_word(state: StateView)
    ensures
        state.client_capabilities is Some ==> capabilities_known(state) == state,
        state.client_capabilities is None ==> {
            let known = capabilities_known(state).client_capabilities;
            &&& known is Some
            &&& !known->0.hierarchical_symbols
            &&& known->0.token_types.len() == 0
            &&& !known->0.resolves_symbols
        },
        capabilities_known(state).config == state.config,
        capabilities_known(state).cache_dir == state.cache_dir,
        capabilities_known(state).symbols == state.symbols,
        capabilities_known(state).url_to_path == state.url_to_path,
        capabilities_known(state).text_documents == state.text_documents,
        capabilities_known(state).token_type_highlight_idx == state.token_type_highlight_idx,
{
}

/// A server that has just been started has its configuration, and knows no symbol, no document and
/// no client.
pub proof fn law_initial_state(config: ConfigView, cache_dir: PathBuf, text: Seq<char>)
    ensures
        initial(config, cache_dir).config == config,
        initial(config, cache_dir).cache_dir == cache_dir,
        !initial(config, cache_dir).symbols.dom().contains(text),
        !initial(config, cache_dir).url_to_path.dom().contains(text),
        !initial(config, cache_dir).text_documents.dom().contains(text),
        initial(config, cache_dir).client_capabilities is None,
        initial(config, cache_dir).token_type_highlight_idx is None,
{
}

} // verus!
