use embedded_language_server::error::Error;
use embedded_language_server::fuzzy::{can_score, scores};
use embedded_language_server::protocol::{
    ClientCapabilities, CompletionItem, ContentChange, DocumentSymbol, DocumentSymbolCapability,
    Location, Position, Range, SemanticTokensCapability, SemanticTokensOptions,
    ServerCapabilities, SymbolInformation, TextDocument, TextDocumentCapabilities,
    TextDocumentSyncKind, WorkspaceCapabilities, WorkspaceSymbolCapability,
};
use embedded_language_server::references::keep_written;
use embedded_language_server::requests::definition_location;
use embedded_language_server::server::{find_highlight_idx, Server};
use embedded_language_server::state::ServerState;
use embedded_language_server::symbols::{Column, SymbolRow};
use embedded_language_server::tokens::SemanticToken;
use embedded_language_server::Config;
use std::path::PathBuf;

const SECRET: &str = "secret";
const URL: &str = "file:///work/some_file.md";

fn text(s: &str) -> Column {
    Column::Text(s.to_owned())
}

fn row(name: &str, hover: Column, definition: Column, ext: Column) -> SymbolRow {
    SymbolRow { identifier: text(name), hover, definition, definition_file_ext: ext }
}

/// A row of a view that is shown in a file.
fn view(name: &str, definition: &str) -> SymbolRow {
    row(name, text(&format!("View: {name}")), text(definition), text(".sql"))
}

fn server_with(case_sensitive: Option<bool>, rows: Vec<SymbolRow>) -> Server {
    let mut config = Config::default();
    config.case_sensitive = case_sensitive;
    config.symbols_highlight = Some(true);
    config.get_symbols_query = "select 1".to_owned();
    config.sign = config.sign_key(SECRET);
    let mut server = Server { state: ServerState::new(config, PathBuf::from("/cache")) };
    assert_eq!(server.state.initialize_symbols(&rows), Ok(()));
    server
}

fn document() -> TextDocument {
    TextDocument { url: URL.to_owned(), canonical: None }
}

fn open(server: &mut Server, document: &TextDocument, text: &str) {
    let change = ContentChange { range: None, text: text.to_owned() };
    server.state.try_set_text_document(document, &vec![change]).unwrap().unwrap();
}

fn at(line: u32, character: u32) -> Position {
    Position { line, character }
}

fn range(line: u32, start: u32, end: u32) -> Range {
    Range { start: at(line, start), end: at(line, end) }
}

fn capabilities(hierarchical: Option<bool>, types: &[&str], resolve: bool) -> ClientCapabilities {
    ClientCapabilities {
        text_document: Some(TextDocumentCapabilities {
            document_symbol: Some(DocumentSymbolCapability {
                hierarchical_document_symbol_support: hierarchical,
            }),
            semantic_tokens: Some(SemanticTokensCapability {
                token_types: types.iter().map(|t| t.to_string()).collect(),
            }),
        }),
        workspace: Some(WorkspaceCapabilities {
            symbol: Some(WorkspaceSymbolCapability { resolve_support: resolve }),
        }),
    }
}

fn start(server: &mut Server, capabilities: ClientCapabilities) -> ServerCapabilities {
    server.try_initialize(capabilities, SECRET).unwrap().unwrap()
}

fn options(types: &[&str]) -> Option<SemanticTokensOptions> {
    let token_types = types.iter().map(|t| t.to_string()).collect();
    Some(SemanticTokensOptions { token_types, full: true, range: true })
}

fn symbol(name: &str, range: Range) -> DocumentSymbol {
    DocumentSymbol { name: name.to_owned(), range }
}

fn token(delta_line: u32, delta_start: u32, length: u32) -> SemanticToken {
    SemanticToken { delta_line, delta_start, length, token_type: 1, token_modifiers_bitset: 0 }
}

#[test]
fn request_hover() {
    let mut server = server_with(None, vec![view("vStoreWithDemographics", "create")]);
    let text = "select top 5 * from vStoreWithDemographics (nolock)";
    open(&mut server, &document(), text);
    let character = text.find("vStoreWithDemographics").unwrap() as u32;
    let hover = server.hover(&document(), at(0, character)).unwrap().unwrap();
    assert!(hover.contains("View: vStoreWithDemographics"));
}

#[test]
fn request_definition() {
    let definition = "CREATE VIEW [Sales].[vSalesPerson]\nAS\nselect 1\n";
    let mut server = server_with(None, vec![view("vSalesPerson", definition)]);
    let text = "vSalesPerson";
    open(&mut server, &document(), text);
    let character = text.find("vSalesPerson").unwrap() as u32;
    let symbol = server.definition(&document(), at(0, character)).unwrap().unwrap();
    let file = server.emit_symbol_definition(&symbol).unwrap();
    assert_eq!(file.name, "vSalesPerson.sql");
    assert!(file.text.contains("CREATE VIEW [Sales].[vSalesPerson]"));
    let location = definition_location(file.uri.unwrap());
    assert_eq!(location.uri, "file:///cache/vSalesPerson.sql");
    assert_eq!(location.range, range(0, 0, 0));
}

#[test]
fn hover_of_what_is_no_symbol() {
    let mut server = server_with(None, vec![view("vStore", "create")]);
    open(&mut server, &document(), "vStores  vStore\n");
    assert_eq!(server.hover(&document(), at(0, 2)), Ok(None));
    assert_eq!(server.hover(&document(), at(0, 8)), Ok(None));
    assert_eq!(server.hover(&document(), at(0, 9)), Ok(Some("View: vStore".to_owned())));
    assert_eq!(server.hover(&document(), at(0, 15)), Ok(Some("View: vStore".to_owned())));
    assert_eq!(server.hover(&document(), at(1, 0)), Ok(None));
    assert_eq!(server.hover(&document(), at(2, 0)), Err(Error::LineOutOfBounds));
    assert_eq!(Error::LineOutOfBounds.message(), "line_idx is out of bounds");
}

#[test]
fn hover_without_a_text_is_empty() {
    let rows = vec![row("x", Column::Null, Column::Unreadable, Column::Null)];
    let mut server = server_with(None, rows);
    open(&mut server, &document(), "x");
    assert_eq!(server.hover(&document(), at(0, 0)), Ok(Some(String::new())));
}

#[test]
fn hover_needs_an_open_document() {
    let mut server = server_with(None, vec![]);
    assert_eq!(server.hover(&document(), at(0, 0)), Err(Error::DocumentNotFound));
    let other = TextDocument { url: "untitled:x".to_owned(), canonical: None };
    assert_eq!(server.hover(&other, at(0, 0)), Err(Error::NotAFileUrl));
}

#[test]
fn case_of_letters_may_make_no_difference() {
    let rows = || vec![view("vStore", "create"), view("ÄRGER", "create")];
    let exact = server_with(None, rows());
    assert!(exact.get_symbol("VSTORE").is_none());
    assert_eq!(exact.get_symbol("vStore").unwrap().name, "vStore");
    let loose = server_with(Some(false), rows());
    assert_eq!(loose.get_symbol("VSTORE").unwrap().name, "vStore");
    assert_eq!(loose.get_symbol("ärger").unwrap().name, "ÄRGER");
    assert!(loose.get_symbol("vStor").is_none());
    assert!(!loose.case_sensitive());
    assert!(exact.case_sensitive());
}

#[test]
fn definition_must_be_complete() {
    let rows = vec![
        row("a", Column::Null, text("create"), Column::Null),
        row("b", Column::Null, Column::Null, text(".sql")),
    ];
    let mut server = server_with(None, rows);
    open(&mut server, &document(), "a b c");
    assert_eq!(server.definition(&document(), at(0, 0)).unwrap_err(), Error::NoDefinition);
    assert_eq!(server.definition(&document(), at(0, 2)).unwrap_err(), Error::NoDefinition);
    assert!(server.definition(&document(), at(0, 4)).unwrap().is_none());
    let symbol = server.get_symbol("a").unwrap();
    assert_eq!(server.emit_symbol_definition(&symbol), Err(Error::NoDefinition));
    assert_eq!(
        Error::NoDefinition.message(),
        "Condition failed: `symbol_info.definition_file_ext.is_some() \
         & symbol_info.definition.is_some()`"
    );
}

#[test]
fn later_rows_replace_earlier_ones() {
    let mut server = server_with(None, vec![view("a", "1"), view("b", "2"), view("a", "3")]);
    assert_eq!(server.get_symbol("a").unwrap().info.definition.unwrap(), "3");
    assert_eq!(server.get_symbol("b").unwrap().info.definition.unwrap(), "2");
    assert_eq!(server.state.initialize_symbols(&vec![view("b", "4")]), Ok(()));
    assert_eq!(server.get_symbol("a").unwrap().info.definition.unwrap(), "3");
    assert_eq!(server.get_symbol("b").unwrap().info.definition.unwrap(), "4");
}

#[test]
fn rows_need_an_identifier() {
    for (identifier, error) in [
        (Column::Null, Error::IdentifierMissing(1)),
        (Column::Unreadable, Error::IdentifierUnreadable(1)),
    ] {
        let mut server = server_with(None, vec![]);
        let bad = SymbolRow {
            identifier,
            hover: Column::Null,
            definition: Column::Null,
            definition_file_ext: Column::Null,
        };
        let rows = vec![view("a", "1"), bad, view("c", "3")];
        assert_eq!(server.state.initialize_symbols(&rows), Err(error));
        assert!(server.get_symbol("a").is_some());
        assert!(server.get_symbol("c").is_none());
        assert!(error.message().contains("'Identifier' column"));
    }
}

#[test]
fn token_types_are_announced() {
    let mut server = server_with(None, vec![]);
    let answer = start(&mut server, capabilities(None, &["class", "enumMember"], false));
    assert_eq!(answer.semantic_tokens, options(&["class", "enumMember"]));
    assert_eq!(server.state.token_type_highlight_idx(), Some(1));
    assert!(server.try_initialize(ClientCapabilities::default(), SECRET).is_none());
    assert_eq!(server.state.token_type_highlight_idx(), Some(1));
    assert_eq!(
        server.try_initialize(ClientCapabilities::default(), "other"),
        Some(Err(Error::NotSigned))
    );
}

#[test]
fn server_tells_what_it_can_do() {
    let mut server = server_with(None, vec![]);
    let expected = ServerCapabilities {
        text_document_sync: TextDocumentSyncKind::Incremental,
        hover_provider: true,
        definition_provider: true,
        references_provider: true,
        completion_provider: true,
        document_symbol_provider: true,
        workspace_symbol_provider: true,
        workspace_symbol_resolve_provider: true,
        semantic_tokens: options(&[]),
    };
    assert_eq!(start(&mut server, ClientCapabilities::default()), expected);
}

#[test]
fn references_depend_on_the_symbol_alone() {
    let rows = vec![view("a", "a b"), view("b", "b a a"), view("c", "c\na")];
    let mut server = server_with(None, rows);
    let other = TextDocument { url: "file:///work/other.md".to_owned(), canonical: None };
    open(&mut server, &document(), "a");
    open(&mut server, &other, "b\nx a");
    let mut answers = Vec::new();
    for (document, place) in [(&document(), at(0, 0)), (&other, at(1, 3))] {
        let groups = server.references(document, place).unwrap().unwrap();
        let mut found = keep_written(&groups, &vec![true; groups.len()]);
        found.sort_by_key(|l| (l.uri.clone(), l.range.start.line, l.range.start.character));
        answers.push(found);
    }
    assert_eq!(answers[0].len(), 4);
    assert_eq!(answers[0], answers[1]);
}

#[test]
fn client_without_the_token_type() {
    let mut server = server_with(None, vec![]);
    let answer = start(&mut server, ClientCapabilities::default());
    assert_eq!(answer.semantic_tokens, options(&[]));
    assert_eq!(server.state.token_type_highlight_idx(), None);
    open(&mut server, &document(), "x");
    assert_eq!(server.semantic_tokens(&document()), Ok(vec![]));
    let types = vec!["enumMember".to_owned(), "enumMember".to_owned()];
    assert_eq!(find_highlight_idx(&types), Some(0));
    assert_eq!(find_highlight_idx(&vec!["enum".to_owned()]), None);
}

#[test]
fn symbols_of_a_document() {
    let rows = vec![view("store", "create"), view("id", "create"), view("missing", "create")];
    let mut server = server_with(None, rows);
    start(&mut server, capabilities(Some(true), &["class", "enumMember"], false));
    open(&mut server, &document(), "id from store\n😀 stores, Store, store.id\nid");
    let expected = vec![
        symbol("id", range(0, 0, 2)),
        symbol("store", range(0, 8, 13)),
        symbol("store", range(1, 18, 23)),
        symbol("id", range(1, 24, 26)),
        symbol("id", range(2, 0, 2)),
    ];
    assert_eq!(server.document_symbol(&document()), Ok(Some(expected)));
    assert_eq!(
        server.semantic_tokens(&document()),
        Ok(vec![token(0, 0, 2), token(0, 8, 5), token(1, 18, 5), token(0, 6, 2), token(1, 0, 2)])
    );
}

#[test]
fn symbols_of_a_document_whatever_the_case() {
    let mut server = server_with(Some(false), vec![view("vStore", "create")]);
    start(&mut server, capabilities(Some(true), &[], false));
    open(&mut server, &document(), "VSTORE, vstores\nvstore");
    assert_eq!(
        server.document_symbol(&document()),
        Ok(Some(vec![symbol("vStore", range(0, 0, 6)), symbol("vStore", range(1, 0, 6))]))
    );
}

#[test]
fn symbols_are_told_of_definitions_only() {
    let mut server = server_with(None, vec![view("a", "select b"), view("b", "x")]);
    start(&mut server, capabilities(Some(false), &["enumMember"], false));
    open(&mut server, &document(), "a");
    assert_eq!(server.document_symbol(&document()), Ok(None));
    assert_eq!(server.semantic_tokens(&document()), Ok(vec![]));
    let shown = TextDocument { url: "file:///cache/a.sql".to_owned(), canonical: None };
    assert_eq!(server.document_symbol(&shown), Err(Error::DocumentNotFound));
    assert_eq!(server.semantic_tokens(&shown), Err(Error::DocumentNotFound));
    open(&mut server, &shown, "select b");
    assert_eq!(server.document_symbol(&shown), Ok(Some(vec![symbol("b", range(0, 7, 8))])));
}

#[test]
fn client_that_tells_nothing_can_do_nothing() {
    let mut server = server_with(None, vec![view("a", "x")]);
    open(&mut server, &document(), "a");
    assert!(server.state.client_capabilities().is_none());
    assert_eq!(server.document_symbol(&document()), Ok(None));
    assert!(server.state.client_capabilities().is_some());
}

#[test]
fn references_in_definitions() {
    let rows = vec![
        view("store", "create view store as\nselect storeId, store.Id\nfrom restore"),
        view("order", "select 1"),
        row("hidden", Column::Null, text("store"), Column::Null),
    ];
    let mut server = server_with(None, rows);
    open(&mut server, &document(), "store");
    let groups = server.references(&document(), at(0, 3)).unwrap().unwrap();
    assert_eq!(groups.len(), 1);
    assert_eq!(groups[0].symbol.name, "store");
    let uri = "file:///cache/store.sql".to_owned();
    let expected = vec![
        Location { uri: uri.clone(), range: range(0, 12, 17) },
        Location { uri, range: range(1, 16, 21) },
    ];
    assert_eq!(groups[0].locations, expected);
    assert_eq!(keep_written(&groups, &vec![true]), expected);
    assert_eq!(keep_written(&groups, &vec![false]), vec![]);
}

#[test]
fn references_whatever_the_case() {
    let mut server = server_with(Some(false), vec![view("vStore", "VSTORE\r\n  vstore x")]);
    open(&mut server, &document(), "VStore");
    let groups = server.references(&document(), at(0, 0)).unwrap().unwrap();
    let ranges: Vec<Range> = groups[0].locations.iter().map(|l| l.range).collect();
    assert_eq!(ranges, vec![range(0, 0, 6), range(1, 2, 8)]);
}

#[test]
fn references_of_what_is_no_symbol() {
    let mut server = server_with(None, vec![view("a", "b")]);
    assert_eq!(server.references(&document(), at(0, 0)).unwrap_err(), Error::DocumentNotFound);
    open(&mut server, &document(), "b");
    assert!(server.references(&document(), at(0, 0)).unwrap().is_none());
}

#[test]
fn references_keep_those_that_were_written() {
    let mut server = server_with(None, vec![view("a", "a"), view("b", "a a")]);
    open(&mut server, &document(), "a");
    let groups = server.references(&document(), at(0, 0)).unwrap().unwrap();
    let written: Vec<bool> = groups.iter().map(|g| g.symbol.name == "b").collect();
    let kept = keep_written(&groups, &written);
    assert_eq!(kept.len(), 2);
    assert!(kept.iter().all(|l| l.uri == "file:///cache/b.sql"));
}

#[test]
fn symbol_is_resolved_by_its_name() {
    let server = server_with(None, vec![view("a", "x")]);
    assert_eq!(server.ws_symbol_resolve("a").unwrap().name, "a");
    assert_eq!(server.ws_symbol_resolve("b").unwrap_err(), Error::SymbolNotFound);
    assert_eq!(Error::SymbolNotFound.message(), "Expect symbol resolve");
}

#[test]
fn symbols_of_the_workspace() {
    let rows = vec![
        view("vStoreWithContacts", "1\n2\n3\n"),
        view("myvStore", "1"),
        view("order", "1"),
        row("vStoreHidden", Column::Null, text("1"), Column::Null),
        row("vStoreEmpty", Column::Null, Column::Null, text(".sql")),
    ];
    let mut server = server_with(None, rows);
    let answer = server.ws_symbol(" vStore\n").unwrap().unwrap();
    let found = |name: &str, last: u32| SymbolInformation {
        name: name.to_owned(),
        location: Location {
            uri: format!("file:///cache/{name}.sql"),
            range: Range { start: at(0, 0), end: at(last, 0) },
        },
    };
    assert_eq!(answer.found, vec![found("vStoreWithContacts", 2), found("myvStore", 0)]);
    let emit: Vec<&str> = answer.emit.iter().map(|s| s.name.as_str()).collect();
    assert_eq!(emit, vec!["vStoreWithContacts", "myvStore"]);
}

#[test]
fn client_that_resolves_symbols_gets_no_files() {
    let mut server = server_with(None, vec![view("vStore", "")]);
    start(&mut server, capabilities(None, &[], true));
    let answer = server.ws_symbol("vst").unwrap().unwrap();
    assert_eq!(answer.found.len(), 1);
    assert_eq!(answer.found[0].location.range, range(0, 0, 0));
    assert!(answer.emit.is_empty());
}

#[test]
fn empty_search_finds_nothing() {
    let mut server = server_with(None, vec![view("vStore", "")]);
    assert!(server.ws_symbol(" \t").unwrap().is_none());
    assert!(server.ws_symbol("zzz").unwrap().unwrap().found.is_empty());
}

#[test]
fn capitals_in_a_search_count() {
    let mut server = server_with(None, vec![view("vStore", "")]);
    assert_eq!(server.ws_symbol("vstore").unwrap().unwrap().found.len(), 1);
    assert_eq!(server.ws_symbol("VSTORE").unwrap().unwrap().found.len(), 0);
}

#[test]
fn search_finds_a_hundred_symbols() {
    let rows = (0..120).map(|i| view(&format!("view{i}"), "x")).collect();
    let mut server = server_with(None, rows);
    assert_eq!(server.ws_symbol("view").unwrap().unwrap().found.len(), 100);
}

#[test]
fn long_texts_are_scored_as_far_as_points_can_be_added() {
    for (len, scored) in [(2501, true), (2520, true), (2521, false)] {
        let long = "a".repeat(len);
        let mut server = server_with(None, vec![view(&long, "x"), view("short", "x")]);
        let found = server.try_ws_symbol(&long).map(|r| r.unwrap().unwrap().found.len());
        assert_eq!(found, if scored { Some(1) } else { None });
        assert_eq!(server.try_ws_symbol("aaa").unwrap().unwrap().unwrap().found.len(), 1);
        open(&mut server, &document(), &long);
        let found = server.try_completion(&document(), at(0, len as u32));
        let found = found.map(|r| r.unwrap().unwrap().len());
        assert_eq!(found, if scored { Some(1) } else { None });
    }
}

#[test]
fn long_query_of_short_words_is_scored() {
    let long = "a".repeat(3000);
    let mut server = server_with(None, vec![view(&long, "x"), view("b", "x")]);
    let query = "aa ".repeat(1000);
    let found = server.try_ws_symbol(&query).unwrap().unwrap().unwrap().found;
    assert_eq!(found.len(), 1);
    assert_eq!(found[0].name, long);
    assert!(server.try_ws_symbol(" ").unwrap().unwrap().is_none());
}

#[test]
fn words_are_measured_one_by_one() {
    let symbols = server_with(None, vec![view(&"a".repeat(3000), "x")]).state.all_symbols();
    assert!(can_score(&"a ".repeat(3000), &symbols));
    assert!(!can_score(&"a\\ ".repeat(2000), &symbols));
    assert!(can_score(&"\\".repeat(1260), &symbols));
    assert!(!can_score(&"\\".repeat(1261), &symbols));
    let short = server_with(None, vec![view("a", "x")]).state.all_symbols();
    assert!(can_score(&"a".repeat(100_000), &short));
    assert!(can_score("", &symbols));
}

#[test]
fn small_letters_that_fold_are_not_scored_beside_an_accent() {
    let mut server = server_with(None, vec![view("\u{17f}sx\u{e9}", "x")]);
    assert!(server.try_ws_symbol("s\u{e9}").is_none());
    assert_eq!(server.try_ws_symbol("s").unwrap().unwrap().unwrap().found.len(), 1);
    assert!(server.try_ws_symbol("x\u{e9}").is_some());
    open(&mut server, &document(), "s\u{e9}");
    assert!(server.try_completion(&document(), at(0, 2)).is_none());
}

#[test]
fn names_in_other_scripts_are_scored() {
    let mut server = server_with(None, vec![view("οδός", "x"), view("дом", "x"), view("é", "x")]);
    for (query, name) in [("οδό", "οδός"), ("οδός", "οδός"), ("дом", "дом"), ("é", "é")] {
        let found = server.try_ws_symbol(query).unwrap().unwrap().unwrap().found;
        assert_eq!(found.len(), 1);
        assert_eq!(found[0].name, name);
    }
    assert!(server.try_ws_symbol("é σ").is_none());
}

#[test]
fn best_symbols_have_scores_of_the_matcher() {
    let symbols = server_with(None, vec![view("vStore", "x")]).state.all_symbols();
    assert_eq!(scores("zzz", &symbols), vec![None]);
    // Six characters, each 16 and 10 more for the start of the word, which the first has twice.
    assert_eq!(scores("vStore", &symbols), vec![Some(166)]);
}

#[test]
fn completions_of_an_identifier() {
    let rows = vec![
        view("vStoreWithContacts", "1"),
        row("myvStore", Column::Null, Column::Null, Column::Null),
        view("order", "1"),
    ];
    let mut server = server_with(None, rows);
    open(&mut server, &document(), "from vStoreX");
    let item = |label: &str, documentation: &str| CompletionItem {
        label: label.to_owned(),
        documentation: documentation.to_owned(),
    };
    assert_eq!(
        server.completion(&document(), at(0, 11)),
        Ok(Some(vec![
            item("vStoreWithContacts", "View: vStoreWithContacts"),
            item("myvStore", ""),
        ]))
    );
    assert_eq!(server.completion(&document(), at(0, 12)), Ok(Some(vec![])));
}

#[test]
fn completion_needs_three_bytes() {
    let mut server = server_with(None, vec![view("abc", "x"), view("äb", "x")]);
    open(&mut server, &document(), "ab abc äb ");
    assert_eq!(server.completion(&document(), at(0, 2)), Ok(None));
    assert_eq!(server.completion(&document(), at(0, 5)), Ok(None));
    assert_eq!(server.completion(&document(), at(0, 6)).unwrap().unwrap().len(), 1);
    assert_eq!(server.completion(&document(), at(0, 9)).unwrap().unwrap().len(), 1);
    assert_eq!(server.completion(&document(), at(0, 10)), Ok(None));
}

#[test]
fn completion_of_a_place_that_is_not_there() {
    let mut server = server_with(None, vec![view("abc", "x")]);
    assert_eq!(server.completion(&document(), at(0, 3)), Ok(None));
    open(&mut server, &document(), "abc");
    assert_eq!(server.completion(&document(), at(1, 0)), Err(Error::LineOutOfBounds));
}
