use embedded_language_server::ident::{get_ident_on_line, IdentPattern};
use embedded_language_server::protocol::Position;
use embedded_language_server::search::{
    chars_of, lines, match_indices, replace, starts_with, trim,
};
use embedded_language_server::symbols::lower;
use embedded_language_server::text::{
    byte_len, char_offset, slice, split_at_char, utf16_offset_to_utf8, utf8_offset_to_utf16,
};

fn ident(line: &str, character: u32) -> Option<String> {
    let pattern = IdentPattern::new();
    get_ident_on_line(&pattern, line, Position { line: 0, character })
}

#[test]
fn units_become_bytes() {
    let s = "aä😀b";
    assert_eq!(utf16_offset_to_utf8(s, 0), Some(0));
    assert_eq!(utf16_offset_to_utf8(s, 1), Some(1));
    assert_eq!(utf16_offset_to_utf8(s, 2), Some(3));
    assert_eq!(utf16_offset_to_utf8(s, 3), Some(7));
    assert_eq!(utf16_offset_to_utf8(s, 4), Some(7));
    assert_eq!(utf16_offset_to_utf8(s, 5), Some(8));
    assert_eq!(utf16_offset_to_utf8(s, 99), Some(8));
    assert_eq!(utf16_offset_to_utf8("", 3), Some(0));
}

#[test]
fn bytes_become_units() {
    let s = "aä😀b";
    assert_eq!(utf8_offset_to_utf16(s, 0), Some(0));
    assert_eq!(utf8_offset_to_utf16(s, 1), Some(1));
    assert_eq!(utf8_offset_to_utf16(s, 2), Some(2));
    assert_eq!(utf8_offset_to_utf16(s, 3), Some(2));
    assert_eq!(utf8_offset_to_utf16(s, 4), Some(4));
    assert_eq!(utf8_offset_to_utf16(s, 7), Some(4));
    assert_eq!(utf8_offset_to_utf16(s, 8), Some(5));
    assert_eq!(utf8_offset_to_utf16(s, 9), None);
}

#[test]
fn offsets_go_there_and_back() {
    let s = "x😀ß\u{2028}y";
    for (byte, _) in s.char_indices() {
        let unit = utf8_offset_to_utf16(s, byte).unwrap();
        assert_eq!(utf16_offset_to_utf8(s, unit), Some(byte));
    }
    assert_eq!(byte_len(s), s.len());
}

#[test]
fn strings_are_cut_at_characters() {
    assert_eq!(split_at_char("aä😀", 3), ("aä", "😀"));
    assert_eq!(slice("aä😀b", 1, 7), "ä😀");
    assert_eq!(char_offset("aä😀b", 0), 0);
    assert_eq!(char_offset("aä😀b", 3), 7);
    assert_eq!(char_offset("aä😀b", 4), 8);
}

#[test]
fn identifier_at_the_cursor() {
    let line = "select top_5 * from x$1;\n";
    assert_eq!(ident(line, 0).as_deref(), Some("select"));
    assert_eq!(ident(line, 3).as_deref(), Some("select"));
    assert_eq!(ident(line, 6).as_deref(), Some("select"));
    assert_eq!(ident(line, 7).as_deref(), Some("top_5"));
    assert_eq!(ident(line, 12).as_deref(), Some("top_5"));
    assert_eq!(ident(line, 13), None);
    assert_eq!(ident(line, 14), None);
    assert_eq!(ident(line, 20).as_deref(), Some("x$1"));
    assert_eq!(ident(line, 23).as_deref(), Some("x$1"));
    assert_eq!(ident(line, 24), None);
    assert_eq!(ident(line, 999), None);
    assert_eq!(ident("", 0), None);
}

#[test]
fn identifiers_beyond_ascii() {
    assert_eq!(ident("- größe 😀 имя٣", 3).as_deref(), Some("größe"));
    assert_eq!(ident("- größe 😀 имя٣", 9), None);
    assert_eq!(ident("- größe 😀 имя٣", 12).as_deref(), Some("имя٣"));
}

#[test]
fn matches_do_not_overlap() {
    let found = |hay: &str, needle: &str| match_indices(&chars_of(hay), &chars_of(needle));
    assert_eq!(found("aaaa", "aa"), vec![0, 2]);
    assert_eq!(found("äbäb", "b"), vec![2, 5]);
    assert_eq!(found("äb", ""), vec![0, 2, 3]);
    assert_eq!(found("abc", "d"), Vec::<usize>::new());
    assert_eq!(found("", "d"), Vec::<usize>::new());
}

#[test]
fn replacing_goes_from_left_to_right() {
    assert_eq!(replace("aaa", "aa", "b"), "ba");
    assert_eq!(replace("a\r\nb\r\r\n", "\r\n", "\n"), "a\nb\r\n");
    assert_eq!(replace("abc", "x", "y"), "abc");
    assert_eq!(replace("ab", "", "-"), "-a-b-");
    assert_eq!(replace("abc", "b", "b"), "abc");
}

#[test]
fn lines_end_with_line_feeds() {
    assert_eq!(lines("a\nb\r\nc"), vec!["a", "b", "c"]);
    assert_eq!(lines("a\n\n"), vec!["a", ""]);
    assert_eq!(lines("a\rb\n"), vec!["a\rb"]);
    assert_eq!(lines("a\r"), vec!["a\r"]);
    assert_eq!(lines(""), Vec::<&str>::new());
    for s in ["", "\n", "a", "a\n", "\r\n", "a\r\r\nb", "x\n\ny\r\n"] {
        assert_eq!(lines(s), s.lines().collect::<Vec<_>>());
    }
}

#[test]
fn white_space_is_trimmed() {
    assert_eq!(trim(" \t a b\u{3000}\n"), "a b");
    assert_eq!(trim("\u{a0}"), "");
    for s in ["", " x", "x ", "x", "\u{85}x\u{2003}", "\u{200b}x"] {
        assert_eq!(trim(s), s.trim());
    }
}

#[test]
fn prefixes_are_compared_by_characters() {
    assert!(starts_with("größe", "grö"));
    assert!(starts_with("x", ""));
    assert!(!starts_with("gr", "grö"));
    assert!(!starts_with("Grö", "grö"));
}

#[test]
fn capitals_become_small() {
    assert_eq!(lower("vStore_1"), "vstore_1");
    assert_eq!(lower("ÄB"), "äb");
    assert_eq!(lower("İ"), "i\u{307}");
}
