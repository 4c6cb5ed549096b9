use embedded_language_server::error::Error;
use embedded_language_server::protocol::{ContentChange, Position, Range, TextDocument};
use embedded_language_server::state::ServerState;
use embedded_language_server::Config;
use std::path::PathBuf;

fn state() -> ServerState {
    ServerState::new(Config::default(), PathBuf::from("/cache"))
}

fn document(url: &str) -> TextDocument {
    TextDocument { url: url.to_owned(), canonical: None }
}

fn whole(text: &str) -> Vec<ContentChange> {
    vec![ContentChange { range: None, text: text.to_owned() }]
}

fn change(from: (u32, u32), to: (u32, u32), text: &str) -> ContentChange {
    let start = Position { line: from.0, character: from.1 };
    let end = Position { line: to.0, character: to.1 };
    ContentChange { range: Some(Range { start, end }), text: text.to_owned() }
}

fn read(state: &mut ServerState, document: &TextDocument) -> Result<String, Error> {
    state.get_text_document(document).map(|rope| rope.to_string())
}

/// The text after changes, or `None` where they can not be made.
fn edited(text: &str, changes: Vec<ContentChange>) -> Option<String> {
    let mut state = state();
    let d = document("file:///work/a.sql");
    state.try_set_text_document(&d, &whole(text)).unwrap().unwrap();
    match state.try_set_text_document(&d, &changes) {
        Some(r) => {
            r.unwrap();
            Some(read(&mut state, &d).unwrap())
        }
        None => {
            assert_eq!(read(&mut state, &d), Ok(text.to_owned()));
            None
        }
    }
}

#[test]
fn opened_document_is_read_back() {
    let mut state = state();
    let d = document("file:///work/a.sql");
    assert_eq!(read(&mut state, &d), Err(Error::DocumentNotFound));
    assert_eq!(state.try_set_text_document(&d, &whole("select\r\n1\n")), Some(Ok(())));
    assert_eq!(read(&mut state, &d), Ok("select\n1\n".to_owned()));
    assert_eq!(state.try_set_text_document(&d, &whole("x")), Some(Ok(())));
    assert_eq!(read(&mut state, &d), Ok("x".to_owned()));
}

#[test]
fn closed_document_is_gone() {
    let mut state = state();
    let a = document("file:///work/a.sql");
    let b = document("file:///work/b.sql");
    state.try_set_text_document(&a, &whole("a")).unwrap().unwrap();
    state.try_set_text_document(&b, &whole("b")).unwrap().unwrap();
    assert_eq!(state.remove_text_document(&a), Ok(()));
    assert_eq!(read(&mut state, &a), Err(Error::DocumentNotFound));
    assert_eq!(read(&mut state, &b), Ok("b".to_owned()));
    assert_eq!(state.remove_text_document(&a), Ok(()));
    assert_eq!(Error::DocumentNotFound.message(), "text document not found");
}

#[test]
fn only_files_have_a_path() {
    let mut state = state();
    for url in ["https://host/a.sql", "untitled:Untitled-1", "no url"] {
        let d = document(url);
        assert_eq!(state.url_to_path(&d), Err(Error::NotAFileUrl));
        assert_eq!(state.try_set_text_document(&d, &whole("a")), Some(Err(Error::NotAFileUrl)));
        assert_eq!(read(&mut state, &d), Err(Error::NotAFileUrl));
        assert_eq!(state.remove_text_document(&d), Err(Error::NotAFileUrl));
        assert_eq!(state.known_path(url), None);
        assert_eq!(state.path_to_resolve(url), None);
    }
    assert_eq!(Error::NotAFileUrl.message(), "url to file path fail");
}

#[test]
fn path_of_a_file_url() {
    let mut state = state();
    let d = document("file://localhost/work/a%20b.sql");
    assert_eq!(state.known_path(&d.url), None);
    assert_eq!(state.path_to_resolve(&d.url).unwrap(), PathBuf::from("/work/a b.sql"));
    assert_eq!(state.url_to_path(&d).unwrap(), "file:///work/a%20b.sql");
    assert_eq!(state.path_to_resolve(&d.url), None);
    assert_eq!(state.known_path(&d.url).unwrap(), "file:///work/a%20b.sql");
}

#[test]
fn resolved_path_is_preferred_and_remembered() {
    let mut state = state();
    let url = "file:///link/a.sql".to_owned();
    let first = TextDocument { url: url.clone(), canonical: Some(PathBuf::from("/real/a.sql")) };
    let later = TextDocument { url, canonical: None };
    assert_eq!(state.url_to_path(&first).unwrap(), "file:///real/a.sql");
    assert_eq!(state.url_to_path(&later).unwrap(), "file:///real/a.sql");
}

#[test]
fn paths_are_kept_as_they_are() {
    let mut state = state();
    let up = document("file:///a/..%2Fb.sql");
    let b = document("file:///b.sql");
    assert_eq!(state.path_to_resolve(&up.url).unwrap(), PathBuf::from("/a/../b.sql"));
    state.try_set_text_document(&up, &whole("up")).unwrap().unwrap();
    assert_eq!(read(&mut state, &b), Err(Error::DocumentNotFound));
    assert_eq!(read(&mut state, &document("file:///a//..%2Fb.sql")), Ok("up".to_owned()));
}

#[test]
fn urls_of_one_path_share_the_text() {
    let mut state = state();
    let link = TextDocument {
        url: "file:///link/a.sql".to_owned(),
        canonical: Some(PathBuf::from("/real/a.sql")),
    };
    let real = document("file:///real/a.sql");
    state.try_set_text_document(&link, &whole("x")).unwrap().unwrap();
    assert_eq!(read(&mut state, &real), Ok("x".to_owned()));
}

#[test]
fn stretches_are_replaced() {
    let text = "one\ntwo\nthree";
    assert_eq!(edited(text, vec![change((1, 0), (1, 3), "2")]).unwrap(), "one\n2\nthree");
    assert_eq!(edited(text, vec![change((0, 3), (2, 0), "")]).unwrap(), "onethree");
    assert_eq!(edited(text, vec![change((2, 5), (2, 5), "!\r\n")]).unwrap(), "one\ntwo\nthree!\n");
    assert_eq!(edited(text, vec![change((3, 0), (3, 0), "\n4")]).unwrap(), "one\ntwo\nthree\n4");
    assert_eq!(edited("", vec![change((0, 0), (0, 0), "x")]).unwrap(), "x");
}

#[test]
fn characters_of_a_place_count_as_one() {
    assert_eq!(edited("😀b", vec![change((0, 1), (0, 2), "c")]).unwrap(), "😀c");
}

#[test]
fn changes_are_made_in_order() {
    let changes = vec![
        change((0, 0), (0, 0), "a\nb\n"),
        change((1, 0), (1, 1), "B"),
        change((2, 0), (2, 1), ""),
    ];
    assert_eq!(edited("xyz", changes).unwrap(), "a\nB\nyz");
    assert_eq!(edited("xyz", vec![]).unwrap(), "xyz");
}

#[test]
fn an_edit_is_undone() {
    let changes = vec![change((0, 1), (1, 1), "long\ntext"), change((0, 1), (1, 4), "b\nc")];
    assert_eq!(edited("ab\ncd", changes).unwrap(), "ab\ncd");
}

#[test]
fn lines_of_a_document_end_in_many_ways() {
    let text = "a\u{b}b\u{c}c\rd\u{85}e\u{2028}f\u{2029}g";
    assert_eq!(edited(text, vec![change((6, 0), (6, 1), "G")]).unwrap(), text.replace('g', "G"));
    assert_eq!(edited(text, vec![change((3, 0), (3, 1), "D")]).unwrap(), text.replace('d', "D"));
}

#[test]
fn places_outside_are_refused() {
    let text = "one\ntwo";
    assert_eq!(edited(text, vec![change((0, 0), (3, 0), "")]), None);
    assert_eq!(edited(text, vec![change((1, 0), (1, 4), "")]), None);
    assert_eq!(edited(text, vec![change((1, 2), (1, 1), "")]), None);
    assert_eq!(edited(text, vec![change((0, 0), (0, 0), "x"), change((9, 0), (9, 0), "")]), None);
    let mut mixed = whole("all");
    mixed.push(change((0, 0), (0, 0), "x"));
    assert_eq!(edited(text, mixed), None);
}

#[test]
fn a_place_may_reach_into_the_next_line() {
    assert_eq!(edited("one\ntwo", vec![change((0, 0), (0, 5), "")]).unwrap(), "wo");
}

#[test]
fn document_that_is_not_open_is_not_edited() {
    let mut state = state();
    let d = document("file:///work/a.sql");
    let changes = vec![change((0, 0), (0, 0), "x")];
    assert_eq!(state.try_set_text_document(&d, &changes), Some(Err(Error::DocumentNotFound)));
    assert_eq!(state.known_path(&d.url).unwrap(), "file:///work/a.sql");
}
