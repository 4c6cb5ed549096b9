//! The identifiers of a line of text, and the one under the cursor.

use crate::protocol::Position;
use crate::text::{
    byte_pos, chars_before_byte, chars_before_unit, lemma_chars_before, lemma_chars_before_bound,
    lemma_on_char, lemma_pos_monotonic, lemma_subrange_len, on_char, slice, unit_pos,
    utf16_offset_to_utf8, utf8_len,
};
use regex::Regex;
use vstd::prelude::*;

verus! {

#[verifier::external_type_specification]
#[verifier::external_body]
pub struct ExRegex(regex::Regex);

/// The regular expression that `Regex::new` makes of a pattern, `None` for a faulty pattern.
pub uninterp spec fn regex_of(pattern: Seq<char>) -> Option<Regex>;

/// Whether the class `[\p{L}\p{N}_$]` of a regular expression holds `c`, a character beyond
/// ASCII.
pub uninterp spec fn is_unicode_word_char(c: char) -> bool;

/// The pattern of an identifier: a run of letters, digits, `_` and `$`.
pub const IDENT_PATTERN: &'static str = "[\\p{L}\\p{N}_$]+";

/// Whether `c` is a letter, a digit, `_` or `$` of ASCII.
pub open spec fn is_ascii_word_char(c: char) -> bool {
    ||| 'a' <= c <= 'z'
    ||| 'A' <= c <= 'Z'
    ||| '0' <= c <= '9'
    ||| c == '_'
    ||| c == '$'
}

/// Whether the class `[\p{L}\p{N}_$]` of a regular expression holds `c`.
pub open spec fn is_word_char(c: char) -> bool {
    if c <= '\x7f' {
        is_ascii_word_char(c)
    } else {
        is_unicode_word_char(c)
    }
}

/// Whether the characters `a` to `b` of `text` are a run of word characters that none continues.
pub open spec fn is_word(text: Seq<char>, a: int, b: int) -> bool {
    &&& 0 <= a < b <= text.len()
    &&& forall|k: int| a <= k < b ==> is_word_char(#[trigger] text[k])
    &&& a > 0 ==> !is_word_char(text[a - 1])
    &&& b < text.len() ==> !is_word_char(text[b])
}

/// Whether the characters `a` to `b` of `text` are such a run, and lie at the bytes that `range`
/// gives.
pub open spec fn is_word_run(text: Seq<char>, a: int, b: int, range: (usize, usize)) -> bool {
    &&& is_word(text, a, b)
    &&& range.0 == byte_pos(text, a)
    &&& range.1 == byte_pos(text, b)
}

/// Whether one of `ranges` holds character `k` of `text`.
pub open spec fn in_some_range(text: Seq<char>, ranges: Seq<(usize, usize)>, k: int) -> bool {
    exists|i: int|
        0 <= i < ranges.len() && (#[trigger] ranges[i]).0 <= byte_pos(text, k) < ranges[i].1
}

/// Whether `ranges` are the runs of word characters in `text`, all of them, from left to right.
pub open spec fn are_word_runs(text: Seq<char>, ranges: Seq<(usize, usize)>) -> bool {
    &&& forall|i: int|
        0 <= i < ranges.len() ==> exists|a: int, b: int|
            is_word_run(text, a, b, #[trigger] ranges[i])
    &&& forall|i: int, j: int|
        0 <= i < j < ranges.len() ==> (#[trigger] ranges[i]).1 <= (#[trigger] ranges[j]).0
    &&& forall|k: int|
        0 <= k < text.len() && is_word_char(text[k]) ==> #[trigger] in_some_range(text, ranges, k)
}

/// `Regex::new`: `None` for a pattern that does not compile. The pattern of an identifier, a class
/// of two general categories and two characters that is repeated, does.
#[verifier::external_body]
fn compile_regex(pattern: &str) -> (r: Option<Regex>)
    ensures
        r == regex_of(pattern@),
        pattern@ == IDENT_PATTERN@ ==> r is Some,
{
    Regex::new(pattern).ok()
}

/// The compiled pattern of an identifier.
pub struct IdentPattern {
    regex: Regex,
}

impl IdentPattern {
    #[verifier::type_invariant]
    spec fn is_compiled(self) -> bool {
        Some(self.regex) == regex_of(IDENT_PATTERN@)
    }

    /// The regular expression.
    pub closed spec fn regex(self) -> Regex {
        self.regex
    }

    /// Compiles the pattern.
    pub fn new() -> (r: Self)
        ensures
            Some(r.regex()) == regex_of(IDENT_PATTERN@),
    {
        IdentPattern { regex: compile_regex(IDENT_PATTERN).unwrap() }
    }
}

/// `Regex::find_iter` on the pattern of an identifier: the byte ranges of the matches. A class
/// that is repeated by `+` matches as many characters as it can, from left to right, so the
/// matches are the runs of the characters of the class. Which characters of ASCII are in the
/// class is stated; which others are, is a matter of Unicode's tables and only named.
#[verifier::external_body]
fn find_words(regex: &Regex, text: &str) -> (r: Vec<(usize, usize)>)
    requires
        Some(*regex) == regex_of(IDENT_PATTERN@),
    ensures
        are_word_runs(text@, r@),
        forall|k: int|
            0 <= k < text@.len() && text@[k] > '\x7f' ==> (#[trigger] is_unicode_word_char(text@[k])
                <==> in_some_range(text@, r@, k)),
{
    regex.find_iter(text).map(|m| (m.start(), m.end())).collect()
}

/// The first character of the run of word characters that ends before character `k`.
pub open spec fn word_start(line: Seq<char>, k: int) -> int
    decreases k,
{
    if k > 0 && is_word_char(line[k - 1]) {
        word_start(line, k - 1)
    } else {
        k
    }
}

/// The end of the run of word characters that starts at character `k`.
pub open spec fn word_end(line: Seq<char>, k: int) -> int
    decreases line.len() - k,
{
    if k < line.len() && is_word_char(line[k]) {
        word_end(line, k + 1)
    } else {
        k
    }
}

/// The identifier at a cursor before character `k`: the one that the cursor is in, before or
/// directly behind.
pub open spec fn word_at(line: Seq<char>, k: int) -> Option<Seq<char>> {
    if word_start(line, k) < word_end(line, k) {
        Some(line.subrange(word_start(line, k), word_end(line, k)))
    } else {
        None
    }
}

/// The identifier at UTF-16 unit `character` of a line.
pub open spec fn ident_on_line(line: Seq<char>, character: int) -> Option<Seq<char>> {
    word_at(line, chars_before_unit(line, character) as int)
}

proof fn lemma_word_start(line: Seq<char>, a: int, k: int)
    requires
        0 <= a <= k <= line.len(),
        forall|j: int| a <= j < k ==> is_word_char(#[trigger] line[j]),
        a > 0 ==> !is_word_char(line[a - 1]),
    ensures
        word_start(line, k) == a,
    decreases k - a,
{
    if a < k {
        assert(is_word_char(line[k - 1]));
        lemma_word_start(line, a, k - 1);
    }
}

proof fn lemma_word_end(line: Seq<char>, k: int, b: int)
    requires
        0 <= k <= b <= line.len(),
        forall|j: int| k <= j < b ==> is_word_char(#[trigger] line[j]),
        b < line.len() ==> !is_word_char(line[b]),
    ensures
        word_end(line, k) == b,
    decreases b - k,
{
    if k < b {
        assert(is_word_char(line[k]));
        lemma_word_end(line, k + 1, b);
    }
}

/// What stands at the cursor are whole words: whatever is told is a run of word characters that
/// none continues, and the cursor is in it, before it or directly behind it.
pub proof fn law_word_at_cursor_is_whole(line: Seq<char>, k: int)
    requires
        0 <= k <= line.len(),
        word_at(line, k) is Some,
    ensures
        word_start(line, k) <= k <= word_end(line, k),
        is_word(line, word_start(line, k), word_end(line, k)),
        word_at(line, k) == Some(line.subrange(word_start(line, k), word_end(line, k))),
{
    lemma_word_start_bounds(line, k);
    lemma_word_end_bounds(line, k);
}

/// The word that the cursor is in, before or directly behind is the one that is told.
pub proof fn law_word_under_cursor(line: Seq<char>, a: int, b: int, k: int)
    requires
        is_word(line, a, b),
        a <= k <= b,
    ensures
        ident_on_line(line, unit_pos(line, k) as int) == Some(line.subrange(a, b)),
{
    if k > 0 {
        lemma_pos_monotonic(line, k - 1, k);
    }
    lemma_chars_before(line, k, unit_pos(line, k) as int);
    lemma_word_start(line, a, k);
    lemma_word_end(line, k, b);
}

/// Between characters of which neither is a word character there is no word.
pub proof fn law_no_word_under_cursor(line: Seq<char>, k: int)
    requires
        0 <= k <= line.len(),
        k > 0 ==> !is_word_char(line[k - 1]),
        k < line.len() ==> !is_word_char(line[k]),
    ensures
        ident_on_line(line, unit_pos(line, k) as int) is None,
{
    if k > 0 {
        lemma_pos_monotonic(line, k - 1, k);
    }
    lemma_chars_before(line, k, unit_pos(line, k) as int);
}

/// Where word characters stand, the identifier is as long as they are exactly if they are a whole
/// word.
pub proof fn lemma_ident_of_len(line: Seq<char>, a: int, b: int)
    requires
        0 <= a < b <= line.len(),
        forall|j: int| a <= j < b ==> is_word_char(#[trigger] line[j]),
    ensures
        ident_on_line(line, unit_pos(line, a) as int) is Some,
        utf8_len(ident_on_line(line, unit_pos(line, a) as int)->0) == utf8_len(
            line.subrange(a, b),
        ) <==> is_word(line, a, b),
{
    if a > 0 {
        lemma_pos_monotonic(line, a - 1, a);
    }
    lemma_chars_before(line, a, unit_pos(line, a) as int);
    lemma_word_start_bounds(line, a);
    lemma_word_end_bounds(line, a);
    let start = word_start(line, a);
    let end = word_end(line, a);
    if end < b {
        assert(is_word_char(line[end]));
    }
    if end == a {
        assert(is_word_char(line[a]));
    }
    lemma_subrange_len(line, start, end);
    lemma_subrange_len(line, a, b);
    lemma_pos_monotonic(line, start, a);
    lemma_pos_monotonic(line, b, end);
    if is_word(line, a, b) {
        lemma_word_start(line, a, a);
        lemma_word_end(line, a, b);
    }
}

proof fn lemma_word_start_bounds(line: Seq<char>, k: int)
    requires
        0 <= k <= line.len(),
    ensures
        0 <= word_start(line, k) <= k,
        forall|j: int| word_start(line, k) <= j < k ==> is_word_char(#[trigger] line[j]),
        word_start(line, k) > 0 ==> !is_word_char(line[word_start(line, k) - 1]),
    decreases k,
{
    if k > 0 && is_word_char(line[k - 1]) {
        lemma_word_start_bounds(line, k - 1);
    }
}

proof fn lemma_word_end_bounds(line: Seq<char>, k: int)
    requires
        0 <= k <= line.len(),
    ensures
        k <= word_end(line, k) <= line.len(),
        forall|j: int| k <= j < word_end(line, k) ==> is_word_char(#[trigger] line[j]),
        word_end(line, k) < line.len() ==> !is_word_char(line[word_end(line, k)]),
    decreases line.len() - k,
{
    if k < line.len() && is_word_char(line[k]) {
        lemma_word_end_bounds(line, k + 1);
    }
}

/// Whether the cursor at byte `offset` is in `range`, before it or directly behind it.
fn covers(range: (usize, usize), offset: usize) -> (r: bool)
    ensures
        r == (range.0 <= offset < range.1 || range.0 <= (if offset > 0 {
            offset - 1
        } else {
            0
        }) < range.1),
{
    let before: usize = if offset > 0 {
        offset - 1
    } else {
        0
    };
    (range.0 <= offset && offset < range.1) || (range.0 <= before && before < range.1)
}

/// The run that a cursor before character `k` is in, before or behind is the one of `word_at`.
proof fn lemma_covering_run(s: Seq<char>, range: (usize, usize), a: int, b: int, k: int)
    requires
        is_word_run(s, a, b, range),
        0 <= k <= s.len(),
        range.0 <= byte_pos(s, k) < range.1 || range.0 <= byte_pos(s, k) - 1 < range.1,
    ensures
        on_char(s, range.0 as int),
        on_char(s, range.1 as int),
        chars_before_byte(s, range.0 as int) == a,
        chars_before_byte(s, range.1 as int) == b,
        word_at(s, k) == Some(s.subrange(a, b)),
{
    lemma_on_char(s, a);
    lemma_on_char(s, b);
    if k < a {
        lemma_pos_monotonic(s, k, a);
    }
    if k > b {
        lemma_pos_monotonic(s, b, k);
    }
    lemma_word_start(s, a, k);
    lemma_word_end(s, k, b);
}

/// Where no run is at the cursor, there is no word.
proof fn lemma_no_run(s: Seq<char>, words: Seq<(usize, usize)>, k: int)
    requires
        are_word_runs(s, words),
        0 <= k <= s.len(),
        forall|j: int|
            0 <= j < words.len() ==> !((#[trigger] words[j]).0 <= byte_pos(s, k) < words[j].1)
                && !(words[j].0 <= byte_pos(s, k) - 1 < words[j].1),
    ensures
        word_at(s, k) is None,
{
    if k < s.len() && is_word_char(s[k]) {
        assert(in_some_range(s, words, k));
        let j = choose|j: int|
            0 <= j < words.len() && (#[trigger] words[j]).0 <= byte_pos(s, k) < words[j].1;
        assert(false);
    }
    if k > 0 && is_word_char(s[k - 1]) {
        assert(in_some_range(s, words, k - 1));
        let j = choose|j: int|
            0 <= j < words.len() && (#[trigger] words[j]).0 <= byte_pos(s, k - 1) < words[j].1;
        let (a, b) = choose|a: int, b: int| is_word_run(s, a, b, words[j]);
        lemma_pos_monotonic(s, k - 1, k);
        if b < k {
            lemma_pos_monotonic(s, b, k - 1);
        }
        lemma_pos_monotonic(s, k, b);
        assert(false);
    }
}

/// The identifier at byte `offset` of a line whose runs of word characters are given.
#[verifier::loop_isolation(false)]
pub fn ident_at(line: &str, words: &Vec<(usize, usize)>, offset: usize) -> (r: Option<String>)
    requires
        are_word_runs(line@, words@),
        on_char(line@, offset as int),
    ensures
        r is Some <==> word_at(line@, chars_before_byte(line@, offset as int) as int) is Some,
        r is Some ==> Some(r->0@) == word_at(
            line@,
            chars_before_byte(line@, offset as int) as int,
        ),
{
    let ghost k = chars_before_byte(line@, offset as int) as int;
    proof {
        lemma_chars_before_bound(line@, offset as int);
    }
    let mut i: usize = 0;
    while i < words.len()
        invariant
            i <= words.len(),
            forall|j: int|
                0 <= j < i ==> !((#[trigger] words@[j]).0 <= offset < words@[j].1) && !(words@[j].0
                    <= offset - 1 < words@[j].1),
        decreases words.len() - i,
    {
        let word = words[i];
        if covers(word, offset) {
            proof {
                assert(exists|a: int, b: int| is_word_run(line@, a, b, words@[i as int]));
                let (a, b) = choose|a: int, b: int| is_word_run(line@, a, b, words@[i as int]);
                lemma_covering_run(line@, word, a, b, k);
            }
            return Some(slice(line, word.0, word.1).to_owned());
        }
        i += 1;
    }
    proof {
        lemma_no_run(line@, words@, k);
    }
    None
}

/// The identifier at a place of a line: the one that the cursor is in, before or directly
/// behind.
pub fn get_ident_on_line(pattern: &IdentPattern, line: &str, position: Position) -> (r: Option<
    String,
>)
    ensures
        r is Some <==> ident_on_line(line@, position.character as int) is Some,
        r is Some ==> Some(r->0@) == ident_on_line(line@, position.character as int),
{
    proof {
        use_type_invariant(pattern);
    }
    let words = find_words(&pattern.regex, line);
    let offset = utf16_offset_to_utf8(line, position.character as usize);
    match offset {
        Some(offset) => {
            proof {
                lemma_chars_before_bound(line@, position.character as int);
                lemma_on_char(
                    line@,
                    chars_before_unit(line@, position.character as int) as int,
                );
            }
            ident_at(line, &words, offset)
        },
        None => None,
    }
}

/// Wherever the cursor is, it stands before the first character that starts at or behind its unit,
/// or at the end of the line. The word that it is then in, before or directly behind is told as a
/// whole; between characters of which neither is a word character, none is.
pub proof fn law_ident_at_any_cursor(line: Seq<char>, character: int, k: int, a: int, b: int)
    requires
        0 <= k <= line.len(),
        k == 0 || unit_pos(line, k - 1) < character,
        k == line.len() || unit_pos(line, k) >= character,
    ensures
        is_word(line, a, b) && a <= k <= b ==> ident_on_line(line, character) == Some(
            line.subrange(a, b),
        ),
        !(k > 0 && is_word_char(line[k - 1])) && !(k < line.len() && is_word_char(line[k]))
            ==> ident_on_line(line, character) is None,
{
    lemma_chars_before(line, k, character);
    if is_word(line, a, b) && a <= k <= b {
        lemma_word_start(line, a, k);
        lemma_word_end(line, k, b);
    }
}

/// The word characters of ASCII are its letters and digits, the underscore and the dollar sign.
pub proof fn law_ascii_word_chars(c: char)
    requires
        c <= '\x7f',
    ensures
        is_word_char(c) <==> {
            ||| 'A' <= c <= 'Z' || 'a' <= c <= 'z'
            ||| '0' <= c <= '9'
            ||| c == '_' || c == '$'
        },
{
}

} // verus!
