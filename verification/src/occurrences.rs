//! Where symbols occur, in a document or in the definitions of symbols.

use crate::fuzzy::wrapped_sum;
use crate::gather::{gathered, law_gathered_in_any_order, law_reordered_is_permutation};
use crate::ident::{
    get_ident_on_line, ident_on_line, is_word, is_word_char, lemma_ident_of_len, IdentPattern,
};
use crate::protocol::{document_symbol_views, DocumentSymbol, DocumentSymbolView, Position, Range};
use crate::rope::{
    ends_line, is_line_break, law_start_of_line, lemma_chars_within_of_pos, lemma_line_of_byte,
    lemma_line_start, lemma_lines_ended, line_count, line_of_byte, line_start, line_text,
    lines_ended, rope_byte_to_line, rope_get_line, rope_line_to_byte, rope_text, rope_to_string,
};
use crate::search::{
    chars_of, law_matches_found, law_matches_in_order, law_no_match_missed, lowercase,
    match_indices, matches_at, matches_from,
};
use crate::sort::{
    comes_before, is_stable_order, law_order_is_permutation, law_order_is_unique,
    law_reordered_keeps_items, law_sorted, reordered, sort_order,
};
use crate::symbols::{lower, symbol_views, Symbol, SymbolView};
use crate::text::{
    byte_len, byte_pos, chars_before_byte, law_ascii_offsets, lemma_on_char, lemma_pos_ends,
    lemma_pos_monotonic, lemma_pos_step, lemma_subrange_len, unit_pos, utf16_len, utf8_len,
    utf8_offset_to_utf16,
};
use crate::tokens::{key_of_place, lemma_place_key, not_behind, place_key, start_keys};
use ropey::Rope;
use vstd::multiset::Multiset;
use vstd::prelude::*;
use vstd::utf8::is_ascii_chars;

verus! {

/// A text as it is searched: as it is, or in lower case.
pub open spec fn folded(s: Seq<char>, case_sensitive: bool) -> Seq<char> {
    if case_sensitive {
        s
    } else {
        lowercase(s)
    }
}

/// A text as it is searched.
pub fn fold(s: &str, case_sensitive: bool) -> (r: String)
    ensures
        r@ == folded(s@, case_sensitive),
{
    if case_sensitive {
        s.to_owned()
    } else {
        lower(s)
    }
}

/// The stretch of `len` units that starts at a place.
pub open spec fn stretch(line: int, unit: int, len: u32) -> Range {
    Range {
        start: Position { line: line as u32, character: unit as u32 },
        end: Position { line: line as u32, character: wrapped_sum(unit as u32, len) },
    }
}

/// Whether the identifier at unit `unit` of a line has `len` bytes.
pub open spec fn ident_has_len(line: Seq<char>, unit: int, len: int) -> bool {
    ident_on_line(line, unit) is Some && utf8_len(ident_on_line(line, unit)->0) == len
}

/// The occurrence of a name of `len` bytes at byte `byte` of a text: there must be an identifier
/// of that length.
pub open spec fn occurrence_at(t: Seq<char>, len: u32, byte: int) -> Option<Range> {
    let line = line_of_byte(t, byte) as int;
    let line_chars = line_text(t, line);
    let offset = byte - byte_pos(t, line_start(t, line));
    let unit = unit_pos(line_chars, chars_before_byte(line_chars, offset) as int) as int;
    if byte <= utf8_len(t) && line <= u32::MAX && offset <= u32::MAX && unit <= u32::MAX
        && ident_has_len(line_chars, unit, len as int) {
        Some(stretch(line, unit, len))
    } else {
        None
    }
}

/// The occurrences at the bytes at which the characters `positions` of `searched` start.
pub open spec fn occurrences_at(
    t: Seq<char>,
    len: u32,
    searched: Seq<char>,
    positions: Seq<int>,
) -> Seq<Range>
    decreases positions.len(),
{
    if positions.len() == 0 {
        seq![]
    } else {
        let before = occurrences_at(t, len, searched, positions.drop_last());
        match occurrence_at(t, len, byte_pos(searched, positions.last()) as int) {
            Some(range) => before.push(range),
            None => before,
        }
    }
}

/// The occurrences of a name in a text.
pub open spec fn occurrences(t: Seq<char>, name: Seq<char>, case_sensitive: bool) -> Seq<Range> {
    if utf8_len(name) <= u32::MAX {
        let searched = folded(t, case_sensitive);
        occurrences_at(
            t,
            utf8_len(name) as u32,
            searched,
            matches_from(searched, folded(name, case_sensitive), 0),
        )
    } else {
        seq![]
    }
}

/// Ranges as occurrences of a symbol.
pub open spec fn named(name: Seq<char>, ranges: Seq<Range>) -> Seq<DocumentSymbolView> {
    ranges.map_values(|range: Range| DocumentSymbolView { name, range })
}

/// The occurrences of all symbols in a text, symbol by symbol.
pub open spec fn all_occurrences(
    t: Seq<char>,
    symbols: Seq<SymbolView>,
    case_sensitive: bool,
) -> Seq<DocumentSymbolView>
    decreases symbols.len(),
{
    if symbols.len() == 0 {
        seq![]
    } else {
        all_occurrences(t, symbols.drop_last(), case_sensitive) + named(
            symbols.last().name,
            occurrences(t, symbols.last().name, case_sensitive),
        )
    }
}

/// The keys by which occurrences are sorted: where they start.
pub open spec fn occurrence_keys(found: Seq<DocumentSymbolView>) -> Seq<u64> {
    found.map_values(|s: DocumentSymbolView| place_key(s.range.start))
}

/// Whether `sorted` holds what was found in the order of the starts.
pub open spec fn is_in_document_order(
    found: Seq<DocumentSymbolView>,
    sorted: Seq<DocumentSymbolView>,
) -> bool {
    exists|order: Seq<usize>| #[trigger]
        is_stable_order(occurrence_keys(found), order) && sorted == reordered(found, order)
}

/// The line that character `p` of a text stands on.
pub open spec fn char_line(t: Seq<char>, p: int) -> int {
    lines_ended(t, p) as int
}

/// The index of character `p` of a text in its line.
pub open spec fn char_in_line(t: Seq<char>, p: int) -> int {
    p - line_start(t, char_line(t, p))
}

/// The range of `len` units that starts at character `p` of a text.
pub open spec fn range_at_char(t: Seq<char>, p: int, len: u32) -> Range {
    let line = line_text(t, char_line(t, p));
    stretch(char_line(t, p), unit_pos(line, char_in_line(t, p)) as int, len)
}

/// Whether `name` stands at character `p` of a text, as a whole word of its line.
pub open spec fn stands_as_word(
    t: Seq<char>,
    name: Seq<char>,
    case_sensitive: bool,
    p: int,
) -> bool {
    let line = line_text(t, char_line(t, p));
    let q = char_in_line(t, p);
    &&& 0 <= p
    &&& p + name.len() <= t.len()
    &&& folded(t.subrange(p, p + name.len()), case_sensitive) == folded(name, case_sensitive)
    &&& is_word(line, q, q + name.len())
}

/// Whether a name is made of word characters that stand on one line.
pub open spec fn is_plain_name(name: Seq<char>) -> bool {
    &&& 0 < name.len()
    &&& utf8_len(name) <= u32::MAX
    &&& forall|i: int|
        0 <= i < name.len() ==> is_word_char(#[trigger] name[i]) && !is_line_break(name[i])
}

/// Folding an ASCII text keeps the places, the word characters and the line breaks.
proof fn lemma_folded(t: Seq<char>, case_sensitive: bool)
    requires
        case_sensitive || is_ascii_chars(t),
    ensures
        folded(t, case_sensitive).len() == t.len(),
        utf8_len(folded(t, case_sensitive)) == utf8_len(t),
        forall|i: int|
            0 <= i <= t.len() ==> #[trigger] byte_pos(folded(t, case_sensitive), i) == byte_pos(
                t,
                i,
            ),
        forall|i: int|
            0 <= i < t.len() ==> is_word_char(#[trigger] folded(t, case_sensitive)[i])
                == is_word_char(t[i]) && is_line_break(folded(t, case_sensitive)[i])
                == is_line_break(t[i]),
{
    let u = folded(t, case_sensitive);
    assert forall|i: int| 0 <= i <= t.len() implies #[trigger] byte_pos(u, i) == byte_pos(t, i) by {
        lemma_folded_pos(t, case_sensitive, i);
    }
    lemma_pos_ends(t);
    lemma_pos_ends(u);
}

proof fn lemma_folded_pos(t: Seq<char>, case_sensitive: bool, i: int)
    requires
        case_sensitive || is_ascii_chars(t),
        0 <= i <= t.len(),
    ensures
        byte_pos(folded(t, case_sensitive), i) == byte_pos(t, i),
    decreases i,
{
    let u = folded(t, case_sensitive);
    lemma_pos_ends(t);
    lemma_pos_ends(u);
    if i > 0 {
        lemma_folded_pos(t, case_sensitive, i - 1);
        lemma_pos_step(t, i - 1);
        lemma_pos_step(u, i - 1);
    }
}

proof fn lemma_folded_subrange(t: Seq<char>, case_sensitive: bool, a: int, b: int)
    requires
        case_sensitive || is_ascii_chars(t),
        0 <= a <= b <= t.len(),
    ensures
        folded(t.subrange(a, b), case_sensitive) == folded(t, case_sensitive).subrange(a, b),
        case_sensitive || is_ascii_chars(t.subrange(a, b)),
{
    if !case_sensitive {
        assert(is_ascii_chars(t.subrange(a, b)));
        assert(folded(t.subrange(a, b), case_sensitive) =~= folded(t, case_sensitive).subrange(
            a,
            b,
        ));
    }
}

/// The line of a character, and where the character stands in it.
proof fn lemma_char_line(t: Seq<char>, p: int)
    requires
        0 <= p <= t.len(),
    ensures
        line_of_byte(t, byte_pos(t, p) as int) == char_line(t, p),
        char_line(t, p) < line_count(t),
        0 <= line_start(t, char_line(t, p)) <= p <= line_start(t, char_line(t, p) + 1) <= t.len(),
        byte_pos(t, p) - byte_pos(t, line_start(t, char_line(t, p))) == byte_pos(
            line_text(t, char_line(t, p)),
            char_in_line(t, p),
        ),
        chars_before_byte(
            line_text(t, char_line(t, p)),
            byte_pos(line_text(t, char_line(t, p)), char_in_line(t, p)) as int,
        ) == char_in_line(t, p),
        byte_pos(t, p) <= utf8_len(t),
{
    let byte = byte_pos(t, p) as int;
    let k = char_line(t, p);
    lemma_chars_within_of_pos(t, p);
    lemma_pos_ends(t);
    lemma_pos_monotonic(t, p, t.len() as int);
    lemma_line_of_byte(t, byte);
    lemma_line_start(t, k);
    lemma_line_start(t, k + 1);
    let a = line_start(t, k);
    let b = line_start(t, k + 1);
    if a > p {
        assert(lines_ended(t, p) < k);
    }
    if b < p {
        lemma_lines_ended(t, b, p);
    }
    let line = line_text(t, k);
    assert(line.take(p - a) =~= t.subrange(a, p));
    lemma_subrange_len(t, a, p);
    lemma_on_char(line, p - a);
}

/// A stretch without line breaks stands on one line.
proof fn lemma_same_line(t: Seq<char>, p: int, e: int)
    requires
        0 <= p <= e <= t.len(),
        forall|j: int| p <= j < e ==> !is_line_break(#[trigger] t[j]),
    ensures
        e <= line_start(t, char_line(t, p) + 1),
        lines_ended(t, e) == lines_ended(t, p),
    decreases e - p,
{
    let k = char_line(t, p);
    if p < e {
        lemma_same_line(t, p, e - 1);
        assert(!is_line_break(t[e - 1]));
    }
    lemma_line_start(t, k + 1);
    lemma_lines_ended(t, line_start(t, k + 1), t.len() as int);
    if line_start(t, k + 1) < e {
        lemma_lines_ended(t, line_start(t, k + 1), e);
    }
}

/// There is an occurrence where word characters stand exactly if they are a whole word.
proof fn lemma_occurrence_at_char(t: Seq<char>, len: u32, p: int, e: int)
    requires
        0 <= p < e <= t.len(),
        len == utf8_len(t.subrange(p, e)),
        forall|j: int| p <= j < e ==> is_word_char(#[trigger] t[j]) && !is_line_break(t[j]),
    ensures
        occurrence_at(t, len, byte_pos(t, p) as int) is Some ==> is_word(
            line_text(t, char_line(t, p)),
            char_in_line(t, p),
            char_in_line(t, p) + (e - p),
        ) && occurrence_at(t, len, byte_pos(t, p) as int) == Some(range_at_char(t, p, len))
            && char_line(t, p) <= u32::MAX && unit_pos(
            line_text(t, char_line(t, p)),
            char_in_line(t, p),
        ) <= u32::MAX,
        char_line(t, p) <= u32::MAX && byte_pos(
            line_text(t, char_line(t, p)),
            char_in_line(t, p),
        ) <= u32::MAX && is_word(
            line_text(t, char_line(t, p)),
            char_in_line(t, p),
            char_in_line(t, p) + (e - p),
        ) ==> occurrence_at(t, len, byte_pos(t, p) as int) is Some,
{
    let line = line_text(t, char_line(t, p));
    let q = char_in_line(t, p);
    let n = e - p;
    lemma_char_line(t, p);
    lemma_same_line(t, p, e);
    assert(line.subrange(q, q + n) =~= t.subrange(p, e));
    assert forall|j: int| q <= j < q + n implies is_word_char(#[trigger] line[j]) by {
        assert(line[j] == t[p + (j - q)]);
    }
    lemma_ident_of_len(line, q, q + n);
    lemma_pos_ends(line);
    lemma_pos_monotonic(line, 0, q);
}

proof fn lemma_occurrences_at(
    t: Seq<char>,
    len: u32,
    searched: Seq<char>,
    positions: Seq<int>,
    j: int,
    k: int,
)
    ensures
        0 <= k < occurrences_at(t, len, searched, positions).len() ==> exists|i: int|
            0 <= i < positions.len() && occurrence_at(
                t,
                len,
                byte_pos(searched, #[trigger] positions[i]) as int,
            ) == Some(occurrences_at(t, len, searched, positions)[k]),
        0 <= j < positions.len() && occurrence_at(
            t,
            len,
            byte_pos(searched, positions[j]) as int,
        ) is Some ==> occurrences_at(t, len, searched, positions).contains(
            occurrence_at(t, len, byte_pos(searched, positions[j]) as int)->0,
        ),
    decreases positions.len(),
{
    if positions.len() > 0 {
        let rest = positions.drop_last();
        let before = occurrences_at(t, len, searched, rest);
        let all = occurrences_at(t, len, searched, positions);
        lemma_occurrences_at(t, len, searched, rest, j, k);
        if 0 <= k < before.len() {
            let i = choose|i: int|
                0 <= i < rest.len() && occurrence_at(
                    t,
                    len,
                    byte_pos(searched, #[trigger] rest[i]) as int,
                ) == Some(before[k]);
            assert(positions[i] == rest[i]);
        } else if k < all.len() {
            assert(positions[positions.len() - 1] == positions.last());
        }
        if 0 <= j < positions.len() && occurrence_at(
            t,
            len,
            byte_pos(searched, positions[j]) as int,
        ) is Some {
            let range = occurrence_at(t, len, byte_pos(searched, positions[j]) as int)->0;
            if j < rest.len() {
                assert(positions[j] == rest[j]);
                let m = choose|m: int| 0 <= m < before.len() && before[m] == range;
                assert(all[m] == range);
            } else {
                assert(all.last() == range);
            }
        }
    }
}

/// Where the folded name is found in the folded text, the name stands.
proof fn lemma_match_of_name(t: Seq<char>, name: Seq<char>, case_sensitive: bool, p: int)
    requires
        case_sensitive || (is_ascii_chars(t) && is_ascii_chars(name)),
        is_plain_name(name),
        matches_at(folded(t, case_sensitive), folded(name, case_sensitive), p),
    ensures
        0 <= p,
        p + name.len() <= t.len(),
        folded(t.subrange(p, p + name.len()), case_sensitive) == folded(name, case_sensitive),
        utf8_len(t.subrange(p, p + name.len())) == utf8_len(name),
        byte_pos(folded(t, case_sensitive), p) == byte_pos(t, p),
        forall|j: int|
            p <= j < p + name.len() ==> is_word_char(#[trigger] t[j]) && !is_line_break(t[j]),
{
    let searched = folded(t, case_sensitive);
    let needle = folded(name, case_sensitive);
    lemma_folded(t, case_sensitive);
    lemma_folded(name, case_sensitive);
    let e = p + name.len();
    lemma_folded_subrange(t, case_sensitive, p, e);
    lemma_folded(t.subrange(p, e), case_sensitive);
    assert forall|j: int| p <= j < e implies is_word_char(#[trigger] t[j]) && !is_line_break(
        t[j],
    ) by {
        assert(searched.subrange(p, e)[j - p] == searched[j]);
        assert(needle[j - p] == searched[j]);
        assert(is_word_char(name[j - p]));
    }
}

/// The occurrences of a name in a document are whole words: each is a place at which the name
/// stands, continued by a word character of its line on neither side. Where the case of letters
/// makes no difference, this is so of texts that are all ASCII.
pub proof fn law_occurrences_are_words(
    t: Seq<char>,
    name: Seq<char>,
    case_sensitive: bool,
    k: int,
)
    requires
        case_sensitive || (is_ascii_chars(t) && is_ascii_chars(name)),
        is_plain_name(name),
        0 <= k < occurrences(t, name, case_sensitive).len(),
    ensures
        exists|p: int| #[trigger]
            stands_as_word(t, name, case_sensitive, p) && occurrences(t, name, case_sensitive)[k]
                == range_at_char(t, p, utf8_len(name) as u32),
{
    let len = utf8_len(name) as u32;
    let searched = folded(t, case_sensitive);
    let needle = folded(name, case_sensitive);
    let positions = matches_from(searched, needle, 0);
    law_matches_found(searched, needle, 0);
    lemma_occurrences_at(t, len, searched, positions, 0, k);
    let found = occurrences(t, name, case_sensitive)[k];
    let i = choose|i: int|
        0 <= i < positions.len() && occurrence_at(
            t,
            len,
            byte_pos(searched, #[trigger] positions[i]) as int,
        ) == Some(found);
    let p = positions[i];
    lemma_match_of_name(t, name, case_sensitive, p);
    lemma_occurrence_at_char(t, len, p, p + name.len());
    assert(stands_as_word(t, name, case_sensitive, p));
}

/// No occurrence is missed: wherever the name stands in a document as a whole word, there is
/// one, as far as 32 bits can tell the place.
pub proof fn law_words_are_occurrences(
    t: Seq<char>,
    name: Seq<char>,
    case_sensitive: bool,
    p: int,
)
    requires
        case_sensitive || (is_ascii_chars(t) && is_ascii_chars(name)),
        is_plain_name(name),
        stands_as_word(t, name, case_sensitive, p),
        char_line(t, p) <= u32::MAX,
        byte_pos(line_text(t, char_line(t, p)), char_in_line(t, p)) <= u32::MAX,
    ensures
        occurrences(t, name, case_sensitive).contains(
            range_at_char(t, p, utf8_len(name) as u32),
        ),
{
    let len = utf8_len(name) as u32;
    let searched = folded(t, case_sensitive);
    let needle = folded(name, case_sensitive);
    let n = name.len() as int;
    let positions = matches_from(searched, needle, 0);
    lemma_folded(t, case_sensitive);
    lemma_folded(name, case_sensitive);
    lemma_folded_subrange(t, case_sensitive, p, p + n);
    assert(matches_at(searched, needle, p));
    lemma_match_of_name(t, name, case_sensitive, p);
    law_no_match_missed(searched, needle, 0, p);
    law_matches_found(searched, needle, 0);
    let k = choose|k: int|
        0 <= k < positions.len() && (#[trigger] positions[k]) <= p && (p == positions[k] || p
            < positions[k] + needle.len());
    let other = positions[k];
    if other < p {
        lemma_match_of_name(t, name, case_sensitive, other);
        assert(is_word_char(t[p - 1]) && !is_line_break(t[p - 1]));
        lemma_char_line(t, p - 1);
        lemma_char_line(t, p);
        let line = line_text(t, char_line(t, p));
        let q = char_in_line(t, p);
        assert(lines_ended(t, p) == lines_ended(t, p - 1));
        assert(line[q - 1] == t[p - 1]);
    }
    lemma_occurrence_at_char(t, len, p, p + n);
    lemma_occurrences_at(t, len, searched, positions, k, -1);
}

/// Whether the identifier at a place of a line has `len` bytes.
pub(crate) fn check_ident(
    pattern: &IdentPattern,
    line: &str,
    start: Position,
    len: usize,
) -> (r: bool)
    ensures
        r == ident_has_len(line@, start.character as int, len as int),
{
    match get_ident_on_line(pattern, line, start) {
        Some(ident) => byte_len(ident.as_str()) == len,
        None => false,
    }
}

/// The occurrence of a name of `len` bytes at byte `byte` of a document.
fn find_occurrence(
    pattern: &IdentPattern,
    rope: &Rope,
    len: u32,
    byte: usize,
) -> (r: Option<Range>)
    ensures
        r == occurrence_at(rope_text(*rope), len, byte as int),
{
    let ghost t = rope_text(*rope);
    let line_idx: usize = match rope_byte_to_line(rope, byte) {
        Some(line) => line,
        None => {
            return None;
        },
    };
    proof {
        lemma_line_of_byte(t, byte as int);
    }
    let line = match rope_get_line(rope, line_idx) {
        Some(line) => line,
        None => {
            return None;
        },
    };
    let start_byte: usize = match rope_line_to_byte(rope, line_idx) {
        Some(start) => start,
        None => {
            return None;
        },
    };
    if line_idx as u64 > u32::MAX as u64 {
        return None;
    }
    let offset: usize = byte - start_byte;
    if offset as u64 > u32::MAX as u64 {
        return None;
    }
    let unit: usize = match utf8_offset_to_utf16(line.as_str(), offset) {
        Some(unit) => unit,
        None => {
            return None;
        },
    };
    if unit as u64 > u32::MAX as u64 {
        return None;
    }
    let start = Position { line: line_idx as u32, character: unit as u32 };
    if check_ident(pattern, line.as_str(), start, len as usize) {
        let end = Position { line: line_idx as u32, character: start.character.wrapping_add(len) };
        Some(Range { start, end })
    } else {
        None
    }
}

/// The occurrences of all symbols in a document, sorted by where they start.
pub fn find_document_symbols(
    pattern: &IdentPattern,
    rope: &Rope,
    symbols: &Vec<Symbol>,
    case_sensitive: bool,
) -> (r: Vec<DocumentSymbol>)
    ensures
        is_in_document_order(
            all_occurrences(rope_text(*rope), symbol_views(symbols@), case_sensitive),
            document_symbol_views(r@),
        ),
{
    let ghost t = rope_text(*rope);
    let ghost views = symbol_views(symbols@);
    let text = rope_to_string(rope);
    let searched_text = fold(text.as_str(), case_sensitive);
    let searched_len: usize = byte_len(searched_text.as_str());
    let searched = chars_of(searched_text.as_str());
    let mut found: Vec<DocumentSymbol> = Vec::new();
    let mut keys: Vec<u64> = Vec::new();
    let mut i: usize = 0;
    proof {
        assert(views.take(0) =~= Seq::<SymbolView>::empty());
    }
    while i < symbols.len()
        invariant
            i <= symbols.len(),
            t == rope_text(*rope),
            views == symbol_views(symbols@),
            searched@ == folded(t, case_sensitive),
            searched_len == utf8_len(searched@),
            document_symbol_views(found@) == all_occurrences(
                t,
                views.take(i as int),
                case_sensitive,
            ),
            keys@ == occurrence_keys(document_symbol_views(found@)),
        decreases symbols.len() - i,
    {
        let name = symbols[i].name.as_str();
        let name_len: usize = byte_len(name);
        let ghost before = document_symbol_views(found@);
        proof {
            assert(views.take(i + 1).drop_last() =~= views.take(i as int));
            assert(views[i as int].name == name@);
        }
        if name_len as u64 <= u32::MAX as u64 {
            let needle_text = fold(name, case_sensitive);
            let needle = chars_of(needle_text.as_str());
            let offsets = match_indices(&searched, &needle);
            let len: u32 = name_len as u32;
            let ghost positions = matches_from(searched@, needle@, 0);
            let mut k: usize = 0;
            proof {
                assert(positions.take(0) =~= Seq::<int>::empty());
                assert(named(name@, Seq::<Range>::empty()) =~= Seq::<DocumentSymbolView>::empty());
                assert(before + Seq::<DocumentSymbolView>::empty() =~= before);
            }
            while k < offsets.len()
                invariant
                    k <= offsets.len(),
                    i < symbols.len(),
                    t == rope_text(*rope),
                    name@ == symbols@[i as int].name@,
                    offsets@.len() == positions.len(),
                    forall|j: int|
                        0 <= j < offsets@.len() ==> #[trigger] offsets@[j] == byte_pos(
                            searched@,
                            positions[j],
                        ),
                    document_symbol_views(found@) == before + named(
                        name@,
                        occurrences_at(t, len, searched@, positions.take(k as int)),
                    ),
                    keys@ == occurrence_keys(document_symbol_views(found@)),
                decreases offsets.len() - k,
            {
                proof {
                    assert(positions.take(k + 1).drop_last() =~= positions.take(k as int));
                    assert(positions.take(k + 1).last() == positions[k as int]);
                }
                let ghost so_far = occurrences_at(t, len, searched@, positions.take(k as int));
                if let Some(range) = find_occurrence(pattern, rope, len, offsets[k]) {
                    let ghost old_found = found@;
                    found.push(DocumentSymbol { name: name.to_owned(), range });
                    keys.push(key_of_place(range.start));
                    proof {
                        assert(document_symbol_views(found@) =~= document_symbol_views(
                            old_found,
                        ).push(DocumentSymbolView { name: name@, range }));
                        assert(named(name@, so_far.push(range)) =~= named(name@, so_far).push(
                            DocumentSymbolView { name: name@, range },
                        ));
                        assert(document_symbol_views(found@) =~= before + named(
                            name@,
                            so_far.push(range),
                        ));
                        assert(keys@ =~= occurrence_keys(document_symbol_views(found@)));
                    }
                }
                k += 1;
            }
            proof {
                assert(positions.take(k as int) =~= positions);
            }
        } else {
            proof {
                assert(named(name@, Seq::<Range>::empty()) =~= Seq::<DocumentSymbolView>::empty());
                assert(before + Seq::<DocumentSymbolView>::empty() =~= before);
            }
        }
        i += 1;
    }
    proof {
        assert(views.take(i as int) =~= views);
    }
    let order = sort_order(&keys);
    let mut r: Vec<DocumentSymbol> = Vec::with_capacity(order.len());
    let ghost all = reordered(document_symbol_views(found@), order@);
    let mut k: usize = 0;
    while k < order.len()
        invariant
            k <= order.len(),
            is_stable_order(keys@, order@),
            keys@.len() == found@.len(),
            all == reordered(document_symbol_views(found@), order@),
            document_symbol_views(r@) == all.take(k as int),
        decreases order.len() - k,
    {
        let symbol = &found[order[k]];
        let ghost old_r = r@;
        r.push(DocumentSymbol { name: symbol.name.clone(), range: symbol.range });
        proof {
            assert(document_symbol_views(r@) =~= document_symbol_views(old_r).push(all[k as int]));
            assert(all.take(k + 1) =~= all.take(k as int).push(all[k as int]));
        }
        k += 1;
    }
    proof {
        assert(all.take(k as int) =~= all);
    }
    r
}

proof fn lemma_all_occurrences(
    t: Seq<char>,
    symbols: Seq<SymbolView>,
    case_sensitive: bool,
    symbol: DocumentSymbolView,
)
    ensures
        all_occurrences(t, symbols, case_sensitive).contains(symbol) <==> exists|i: int|
            0 <= i < symbols.len() && (#[trigger] symbols[i]).name == symbol.name && occurrences(
                t,
                symbol.name,
                case_sensitive,
            ).contains(symbol.range),
    decreases symbols.len(),
{
    let all = all_occurrences(t, symbols, case_sensitive);
    if symbols.len() > 0 {
        let rest = symbols.drop_last();
        let before = all_occurrences(t, rest, case_sensitive);
        let name = symbols.last().name;
        let ranges = occurrences(t, name, case_sensitive);
        let last = named(name, ranges);
        lemma_all_occurrences(t, rest, case_sensitive, symbol);
        if all.contains(symbol) {
            let k = choose|k: int| 0 <= k < all.len() && all[k] == symbol;
            if k < before.len() {
                assert(before[k] == symbol);
                let i = choose|i: int|
                    0 <= i < rest.len() && (#[trigger] rest[i]).name == symbol.name && occurrences(
                        t,
                        symbol.name,
                        case_sensitive,
                    ).contains(symbol.range);
                assert(symbols[i].name == symbol.name);
            } else {
                assert(last[k - before.len()] == symbol);
                assert(ranges[k - before.len()] == symbol.range);
                assert(symbols[symbols.len() - 1].name == symbol.name);
            }
        }
        if exists|i: int|
            0 <= i < symbols.len() && (#[trigger] symbols[i]).name == symbol.name && occurrences(
                t,
                symbol.name,
                case_sensitive,
            ).contains(symbol.range) {
            let i = choose|i: int|
                0 <= i < symbols.len() && (#[trigger] symbols[i]).name == symbol.name
                    && occurrences(t, symbol.name, case_sensitive).contains(symbol.range);
            if i < rest.len() {
                assert(rest[i].name == symbol.name);
                let k = choose|k: int| 0 <= k < before.len() && before[k] == symbol;
                assert(all[k] == symbol);
            } else {
                let k = choose|k: int| 0 <= k < ranges.len() && ranges[k] == symbol.range;
                assert(last[k] == symbol);
                assert(all[before.len() + k] == symbol);
            }
        }
    }
}

/// The symbols of a document are the occurrences of the names: all of them, and nothing else.
pub proof fn law_document_symbols_are_occurrences(
    t: Seq<char>,
    symbols: Seq<SymbolView>,
    case_sensitive: bool,
    sorted: Seq<DocumentSymbolView>,
    symbol: DocumentSymbolView,
)
    requires
        is_in_document_order(all_occurrences(t, symbols, case_sensitive), sorted),
    ensures
        sorted.contains(symbol) <==> exists|i: int|
            0 <= i < symbols.len() && (#[trigger] symbols[i]).name == symbol.name && occurrences(
                t,
                symbol.name,
                case_sensitive,
            ).contains(symbol.range),
{
    let found = all_occurrences(t, symbols, case_sensitive);
    let order = choose|order: Seq<usize>| #[trigger]
        is_stable_order(occurrence_keys(found), order) && sorted == reordered(found, order);
    law_reordered_keeps_items(occurrence_keys(found), order, found, symbol);
    lemma_all_occurrences(t, symbols, case_sensitive, symbol);
}

/// In the symbols of a document none starts behind a later one.
pub proof fn law_document_symbols_in_order(
    found: Seq<DocumentSymbolView>,
    sorted: Seq<DocumentSymbolView>,
    i: int,
    j: int,
)
    requires
        is_in_document_order(found, sorted),
        0 <= i <= j < sorted.len(),
    ensures
        not_behind(sorted[i].range.start, sorted[j].range.start),
{
    let keys = occurrence_keys(found);
    let order = choose|order: Seq<usize>| #[trigger]
        is_stable_order(keys, order) && sorted == reordered(found, order);
    lemma_place_key(sorted[i].range.start, sorted[j].range.start);
    assert(keys[order[i] as int] == place_key(sorted[i].range.start));
    assert(keys[order[j] as int] == place_key(sorted[j].range.start));
    if i < j {
        assert(comes_before(keys, order[i] as int, order[j] as int));
    }
}

/// What was found determines the order of the symbols of a document.
pub proof fn law_document_order_is_unique(
    found: Seq<DocumentSymbolView>,
    a: Seq<DocumentSymbolView>,
    b: Seq<DocumentSymbolView>,
)
    requires
        is_in_document_order(found, a),
        is_in_document_order(found, b),
    ensures
        a == b,
{
    let keys = occurrence_keys(found);
    let order_a = choose|order: Seq<usize>| #[trigger]
        is_stable_order(keys, order) && a == reordered(found, order);
    let order_b = choose|order: Seq<usize>| #[trigger]
        is_stable_order(keys, order) && b == reordered(found, order);
    law_order_is_unique(keys, order_a, order_b);
}

/// Where the occurrences of a symbol start.
pub open spec fn symbol_keys(t: Seq<char>, symbol: SymbolView, case_sensitive: bool) -> Seq<u64> {
    start_keys(occurrences(t, symbol.name, case_sensitive))
}

/// The starts of all occurrences are those of each symbol.
proof fn lemma_gathered_keys(t: Seq<char>, symbols: Seq<SymbolView>, case_sensitive: bool)
    ensures
        occurrence_keys(all_occurrences(t, symbols, case_sensitive)).to_multiset() == gathered(
            symbols,
            |s: SymbolView| symbol_keys(t, s, case_sensitive),
        ),
    decreases symbols.len(),
{
    broadcast use vstd::seq_lib::group_to_multiset_ensures;

    let of = |s: SymbolView| symbol_keys(t, s, case_sensitive);
    let keys = occurrence_keys(all_occurrences(t, symbols, case_sensitive));
    if symbols.len() > 0 {
        let before = occurrence_keys(all_occurrences(t, symbols.drop_last(), case_sensitive));
        lemma_gathered_keys(t, symbols.drop_last(), case_sensitive);
        assert(keys =~= before + of(symbols.last()));
        vstd::seq_lib::lemma_multiset_commutative(before, of(symbols.last()));
    } else {
        assert(keys =~= Seq::<u64>::empty());
        assert(keys.to_multiset() =~= Multiset::<u64>::empty());
    }
}

/// Where an occurrence starts determines it: it is as long as the identifier there.
pub open spec fn range_from(t: Seq<char>, start: Position) -> Range {
    let ident = ident_on_line(line_text(t, start.line as int), start.character as int);
    stretch(start.line as int, start.character as int, utf8_len(ident->0) as u32)
}

proof fn lemma_range_from(
    t: Seq<char>,
    len: u32,
    searched: Seq<char>,
    positions: Seq<int>,
    range: Range,
)
    requires
        occurrences_at(t, len, searched, positions).contains(range),
    ensures
        range == range_from(t, range.start),
{
    let all = occurrences_at(t, len, searched, positions);
    let k = choose|k: int| 0 <= k < all.len() && all[k] == range;
    lemma_occurrences_at(t, len, searched, positions, 0, k);
    let i = choose|i: int|
        0 <= i < positions.len() && occurrence_at(
            t,
            len,
            byte_pos(searched, #[trigger] positions[i]) as int,
        ) == Some(all[k]);
    let byte = byte_pos(searched, positions[i]) as int;
    lemma_line_of_byte(t, byte);
}

/// The ranges of the symbols of a document do not depend on the order in which the symbols are
/// walked.
pub proof fn law_document_ranges_in_any_order(
    t: Seq<char>,
    symbols_a: Seq<SymbolView>,
    symbols_b: Seq<SymbolView>,
    case_sensitive: bool,
    a: Seq<DocumentSymbolView>,
    b: Seq<DocumentSymbolView>,
)
    requires
        symbols_a.no_duplicates(),
        symbols_b.no_duplicates(),
        forall|symbol: SymbolView| symbols_a.contains(symbol) <==> symbols_b.contains(symbol),
        is_in_document_order(all_occurrences(t, symbols_a, case_sensitive), a),
        is_in_document_order(all_occurrences(t, symbols_b, case_sensitive), b),
    ensures
        a.len() == b.len(),
        forall|i: int| 0 <= i < a.len() ==> (#[trigger] a[i]).range == b[i].range,
{
    let keys_a = occurrence_keys(a);
    let keys_b = occurrence_keys(b);
    lemma_sorted_keys(all_occurrences(t, symbols_a, case_sensitive), a);
    lemma_sorted_keys(all_occurrences(t, symbols_b, case_sensitive), b);
    lemma_gathered_keys(t, symbols_a, case_sensitive);
    lemma_gathered_keys(t, symbols_b, case_sensitive);
    law_gathered_in_any_order(
        symbols_a,
        symbols_b,
        |s: SymbolView| symbol_keys(t, s, case_sensitive),
    );
    let leq = |x: u64, y: u64| x <= y;
    vstd::seq_lib::lemma_sorted_unique(keys_a, keys_b, leq);
    assert forall|i: int| 0 <= i < a.len() implies (#[trigger] a[i]).range == b[i].range by {
        assert(keys_a[i] == keys_b[i]);
        lemma_place_key(a[i].range.start, b[i].range.start);
        lemma_document_range(t, symbols_a, case_sensitive, a, i);
        lemma_document_range(t, symbols_b, case_sensitive, b, i);
    }
}

proof fn lemma_document_range(
    t: Seq<char>,
    symbols: Seq<SymbolView>,
    case_sensitive: bool,
    sorted: Seq<DocumentSymbolView>,
    i: int,
)
    requires
        is_in_document_order(all_occurrences(t, symbols, case_sensitive), sorted),
        0 <= i < sorted.len(),
    ensures
        sorted[i].range == range_from(t, sorted[i].range.start),
{
    let symbol = sorted[i];
    assert(sorted.contains(symbol));
    law_document_symbols_are_occurrences(t, symbols, case_sensitive, sorted, symbol);
    let searched = folded(t, case_sensitive);
    lemma_range_from(
        t,
        utf8_len(symbol.name) as u32,
        searched,
        matches_from(searched, folded(symbol.name, case_sensitive), 0),
        symbol.range,
    );
}

proof fn lemma_sorted_keys(found: Seq<DocumentSymbolView>, sorted: Seq<DocumentSymbolView>)
    requires
        is_in_document_order(found, sorted),
    ensures
        occurrence_keys(sorted).to_multiset() == occurrence_keys(found).to_multiset(),
        forall|i: int, j: int|
            0 <= i < j < sorted.len() ==> #[trigger] occurrence_keys(sorted)[i]
                <= #[trigger] occurrence_keys(sorted)[j],
{
    let keys = occurrence_keys(found);
    let order = choose|order: Seq<usize>| #[trigger]
        is_stable_order(keys, order) && sorted == reordered(found, order);
    assert(occurrence_keys(sorted) =~= reordered(keys, order));
    law_reordered_is_permutation(keys, order, keys);
    assert forall|i: int, j: int| 0 <= i < j < sorted.len() implies #[trigger] occurrence_keys(
        sorted,
    )[i] <= #[trigger] occurrence_keys(sorted)[j] by {
        law_sorted(keys, order, i, j);
    }
}

/// The range of an occurrence lies on one line and is as long as the name, in bytes; where 32 bits
/// can not tell the end, what they can tell of it is told. An ASCII name is as long in characters.
pub proof fn law_occurrence_is_as_long_as_name(
    t: Seq<char>,
    name: Seq<char>,
    case_sensitive: bool,
    k: int,
)
    requires
        0 <= k < occurrences(t, name, case_sensitive).len(),
    ensures
        ({
            let range = occurrences(t, name, case_sensitive)[k];
            let end = range.start.character + utf8_len(name);
            &&& range.end.line == range.start.line
            &&& end <= u32::MAX ==> range.end.character == end
            &&& end > u32::MAX ==> range.end.character == end - 0x1_0000_0000
            &&& is_ascii_chars(name) ==> end == range.start.character + name.len()
        }),
{
    let searched = folded(t, case_sensitive);
    let positions = matches_from(searched, folded(name, case_sensitive), 0);
    lemma_occurrences_at(t, utf8_len(name) as u32, searched, positions, 0, k);
    if is_ascii_chars(name) {
        law_ascii_offsets(name);
    }
}

/// Where an occurrence is told, the name stands: on the line that the range says, so many UTF-16
/// units behind the start of the line as the range says, and continued by a word character of the
/// line on neither side. The character at which the name stands and the one at which its line
/// starts are given. Where the case of letters makes no difference, this is so of texts that are
/// all ASCII.
pub proof fn law_name_stands_at_occurrence(
    t: Seq<char>,
    name: Seq<char>,
    case_sensitive: bool,
    k: int,
) -> (place: (int, int))
    requires
        case_sensitive || (is_ascii_chars(t) && is_ascii_chars(name)),
        is_plain_name(name),
        0 <= k < occurrences(t, name, case_sensitive).len(),
    ensures
        ({
            let (p, b) = place;
            let start = occurrences(t, name, case_sensitive)[k].start;
            let word = t.subrange(p, p + name.len());
            &&& 0 <= b <= p
            &&& p + name.len() <= t.len()
            &&& case_sensitive ==> word == name
            &&& !case_sensitive ==> lowercase(word) == lowercase(name)
            &&& start.line == lines_ended(t, p)
            &&& start.line == lines_ended(t, b)
            &&& b == 0 || ends_line(t, b - 1)
            &&& start.character == utf16_len(t.subrange(b, p))
            &&& is_word(line_text(t, start.line as int), p - b, p - b + name.len())
        }),
{
    let len = utf8_len(name) as u32;
    let searched = folded(t, case_sensitive);
    let needle = folded(name, case_sensitive);
    let positions = matches_from(searched, needle, 0);
    law_matches_found(searched, needle, 0);
    lemma_occurrences_at(t, len, searched, positions, 0, k);
    let found = occurrences(t, name, case_sensitive)[k];
    let i = choose|i: int|
        0 <= i < positions.len() && occurrence_at(
            t,
            len,
            byte_pos(searched, #[trigger] positions[i]) as int,
        ) == Some(found);
    let p = positions[i];
    lemma_match_of_name(t, name, case_sensitive, p);
    lemma_occurrence_at_char(t, len, p, p + name.len());
    lemma_place_of_char(t, p);
    (p, line_start(t, char_line(t, p)))
}

/// The line of a character starts directly behind a line end, and what stands between is what the
/// line starts with.
proof fn lemma_place_of_char(t: Seq<char>, p: int)
    requires
        0 <= p <= t.len(),
    ensures
        ({
            let k = char_line(t, p);
            let b = line_start(t, k);
            &&& 0 <= b <= p
            &&& lines_ended(t, b) == k
            &&& b == 0 || ends_line(t, b - 1)
            &&& line_text(t, k).take(p - b) == t.subrange(b, p)
        }),
{
    let k = char_line(t, p);
    let b = line_start(t, k);
    lemma_char_line(t, p);
    law_start_of_line(t, k, b);
    assert(line_text(t, k).take(p - b) =~= t.subrange(b, p));
}

/// No occurrence is missed: wherever the name stands in the text, continued by a word character of
/// its line on neither side, there is an occurrence that starts there, as far as 32 bits can tell
/// the place. Its index is given.
pub proof fn law_occurrence_where_name_stands(
    t: Seq<char>,
    name: Seq<char>,
    case_sensitive: bool,
    p: int,
    b: int,
) -> (k: int)
    requires
        case_sensitive || (is_ascii_chars(t) && is_ascii_chars(name)),
        is_plain_name(name),
        0 <= b <= p,
        p + name.len() <= t.len(),
        case_sensitive ==> t.subrange(p, p + name.len()) == name,
        !case_sensitive ==> lowercase(t.subrange(p, p + name.len())) == lowercase(name),
        b == 0 || ends_line(t, b - 1),
        lines_ended(t, b) == lines_ended(t, p) <= u32::MAX,
        utf8_len(t.subrange(b, p)) <= u32::MAX,
        is_word(line_text(t, lines_ended(t, p) as int), p - b, p - b + name.len()),
    ensures
        0 <= k < occurrences(t, name, case_sensitive).len(),
        ({
            let start = occurrences(t, name, case_sensitive)[k].start;
            &&& start.line == lines_ended(t, p)
            &&& start.character == utf16_len(t.subrange(b, p))
        }),
{
    let line = line_text(t, char_line(t, p));
    law_start_of_line(t, char_line(t, p), b);
    lemma_place_of_char(t, p);
    assert(stands_as_word(t, name, case_sensitive, p));
    law_words_are_occurrences(t, name, case_sensitive, p);
    lemma_pos_monotonic(line, 0, p - b);
    lemma_pos_ends(line);
    let range = range_at_char(t, p, utf8_len(name) as u32);
    let all = occurrences(t, name, case_sensitive);
    choose|k: int| 0 <= k < all.len() && all[k] == range
}

/// Occurrences are taken from the positions in order.
proof fn lemma_occurrences_in_order(
    t: Seq<char>,
    len: u32,
    searched: Seq<char>,
    positions: Seq<int>,
    i: int,
    j: int,
) -> (at: (int, int))
    requires
        0 <= i < j < occurrences_at(t, len, searched, positions).len(),
    ensures
        0 <= at.0 < at.1 < positions.len(),
        occurrence_at(t, len, byte_pos(searched, positions[at.0]) as int) == Some(
            occurrences_at(t, len, searched, positions)[i],
        ),
        occurrence_at(t, len, byte_pos(searched, positions[at.1]) as int) == Some(
            occurrences_at(t, len, searched, positions)[j],
        ),
    decreases positions.len(),
{
    let rest = positions.drop_last();
    let before = occurrences_at(t, len, searched, rest);
    if j < before.len() {
        lemma_occurrences_in_order(t, len, searched, rest, i, j)
    } else {
        lemma_occurrences_at(t, len, searched, rest, 0, i);
        let m = choose|m: int|
            0 <= m < rest.len() && occurrence_at(
                t,
                len,
                byte_pos(searched, #[trigger] rest[m]) as int,
            ) == Some(before[i]);
        (m, positions.len() - 1)
    }
}

/// A later character stands at a later place.
proof fn lemma_places_in_order(t: Seq<char>, p: int, q: int)
    requires
        0 <= p < q <= t.len(),
    ensures
        char_line(t, p) <= char_line(t, q),
        char_line(t, p) == char_line(t, q) ==> unit_pos(
            line_text(t, char_line(t, p)),
            char_in_line(t, p),
        ) < unit_pos(line_text(t, char_line(t, q)), char_in_line(t, q)),
{
    lemma_lines_ended(t, p, q);
    if char_line(t, p) == char_line(t, q) {
        lemma_char_line(t, p);
        lemma_char_line(t, q);
        lemma_pos_monotonic(
            line_text(t, char_line(t, p)),
            char_in_line(t, p),
            char_in_line(t, q),
        );
    }
}

/// Whether each character of `u` starts at the byte at which that of `t` starts.
pub open spec fn keeps_places(t: Seq<char>, u: Seq<char>) -> bool {
    &&& u.len() == t.len()
    &&& forall|i: int| 0 <= i <= t.len() ==> #[trigger] byte_pos(u, i) == byte_pos(t, i)
}

/// Where an occurrence starts, if there is one.
proof fn lemma_start_of_occurrence(t: Seq<char>, len: u32, p: int)
    requires
        0 <= p <= t.len(),
    ensures
        ({
            let found = occurrence_at(t, len, byte_pos(t, p) as int);
            let line = line_text(t, char_line(t, p));
            let unit = unit_pos(line, char_in_line(t, p)) as int;
            &&& found is Some <==> char_line(t, p) <= u32::MAX && byte_pos(
                line,
                char_in_line(t, p),
            ) <= u32::MAX && ident_has_len(line, unit, len as int)
            &&& found is Some ==> found->0.start.line == char_line(t, p)
                && found->0.start.character == unit
        }),
{
    let line = line_text(t, char_line(t, p));
    lemma_char_line(t, p);
    lemma_pos_ends(line);
    lemma_pos_monotonic(line, 0, char_in_line(t, p));
}

/// Each occurrence of a name is told once: a later one starts at a later place. Where the case of
/// letters makes no difference, this is so of texts whose lower case keeps the places.
pub proof fn law_occurrences_are_told_once(
    t: Seq<char>,
    name: Seq<char>,
    case_sensitive: bool,
    i: int,
    j: int,
)
    requires
        case_sensitive || keeps_places(t, lowercase(t)),
        0 <= i < j < occurrences(t, name, case_sensitive).len(),
    ensures
        ({
            let first = occurrences(t, name, case_sensitive)[i].start;
            let second = occurrences(t, name, case_sensitive)[j].start;
            first.line < second.line || (first.line == second.line && first.character
                < second.character)
        }),
{
    let len = utf8_len(name) as u32;
    let searched = folded(t, case_sensitive);
    let needle = folded(name, case_sensitive);
    let positions = matches_from(searched, needle, 0);
    law_matches_found(searched, needle, 0);
    let at = lemma_occurrences_in_order(t, len, searched, positions, i, j);
    law_matches_in_order(searched, needle, 0, at.0, at.1);
    let p = positions[at.0];
    let q = positions[at.1];
    assert(byte_pos(searched, p) == byte_pos(t, p));
    assert(byte_pos(searched, q) == byte_pos(t, q));
    lemma_start_of_occurrence(t, len, p);
    lemma_start_of_occurrence(t, len, q);
    lemma_places_in_order(t, p, q);
}

/// Whatever the name is made of, it stands where an occurrence is told, and the identifier there
/// has as many bytes. `searched` and `needle` are the text and the name, in lower case if the case
/// of letters makes no difference. The character at which the name stands and the one at which its
/// line starts are given.
pub proof fn law_any_name_stands_at_occurrence(
    t: Seq<char>,
    name: Seq<char>,
    case_sensitive: bool,
    searched: Seq<char>,
    needle: Seq<char>,
    k: int,
) -> (place: (int, int))
    requires
        case_sensitive ==> searched == t && needle == name,
        !case_sensitive ==> searched == lowercase(t) && needle == lowercase(name),
        keeps_places(t, searched),
        0 <= k < occurrences(t, name, case_sensitive).len(),
    ensures
        ({
            let (p, b) = place;
            let start = occurrences(t, name, case_sensitive)[k].start;
            let ident = ident_on_line(line_text(t, start.line as int), start.character as int);
            &&& 0 <= b <= p
            &&& p + needle.len() <= searched.len()
            &&& searched.subrange(p, p + needle.len()) == needle
            &&& start.line == lines_ended(t, p)
            &&& start.line == lines_ended(t, b)
            &&& b == 0 || ends_line(t, b - 1)
            &&& start.character == utf16_len(t.subrange(b, p))
            &&& ident is Some
            &&& utf8_len(ident->0) == utf8_len(name)
        }),
{
    let len = utf8_len(name) as u32;
    let positions = matches_from(searched, needle, 0);
    law_matches_found(searched, needle, 0);
    lemma_occurrences_at(t, len, searched, positions, 0, k);
    let found = occurrences(t, name, case_sensitive)[k];
    let i = choose|i: int|
        0 <= i < positions.len() && occurrence_at(
            t,
            len,
            byte_pos(searched, #[trigger] positions[i]) as int,
        ) == Some(found);
    let p = positions[i];
    assert(byte_pos(searched, p) == byte_pos(t, p));
    lemma_start_of_occurrence(t, len, p);
    lemma_place_of_char(t, p);
    (p, line_start(t, char_line(t, p)))
}

/// No occurrence is missed, whatever the name is made of: where it stands, no earlier place at
/// which it stands overlaps, and the identifier there has as many bytes, there is one that starts
/// there, as far as 32 bits can tell the place. Its index is given.
pub proof fn law_occurrence_where_any_name_stands(
    t: Seq<char>,
    name: Seq<char>,
    case_sensitive: bool,
    searched: Seq<char>,
    needle: Seq<char>,
    p: int,
    b: int,
) -> (k: int)
    requires
        case_sensitive ==> searched == t && needle == name,
        !case_sensitive ==> searched == lowercase(t) && needle == lowercase(name),
        keeps_places(t, searched),
        utf8_len(name) <= u32::MAX,
        0 <= b <= p,
        p + needle.len() <= searched.len(),
        searched.subrange(p, p + needle.len()) == needle,
        forall|q: int|
            0 <= q < p < q + needle.len() ==> #[trigger] searched.subrange(q, q + needle.len())
                != needle,
        b == 0 || ends_line(t, b - 1),
        lines_ended(t, b) == lines_ended(t, p) <= u32::MAX,
        utf8_len(t.subrange(b, p)) <= u32::MAX,
        ({
            let line = line_text(t, lines_ended(t, p) as int);
            let ident = ident_on_line(line, utf16_len(t.subrange(b, p)) as int);
            ident is Some && utf8_len(ident->0) == utf8_len(name)
        }),
    ensures
        0 <= k < occurrences(t, name, case_sensitive).len(),
        ({
            let start = occurrences(t, name, case_sensitive)[k].start;
            &&& start.line == lines_ended(t, p)
            &&& start.character == utf16_len(t.subrange(b, p))
        }),
{
    let len = utf8_len(name) as u32;
    let positions = matches_from(searched, needle, 0);
    law_start_of_line(t, char_line(t, p), b);
    lemma_place_of_char(t, p);
    assert(matches_at(searched, needle, p));
    law_no_match_missed(searched, needle, 0, p);
    law_matches_found(searched, needle, 0);
    let m = choose|m: int|
        0 <= m < positions.len() && (#[trigger] positions[m]) <= p && (p == positions[m] || p
            < positions[m] + needle.len());
    if positions[m] < p {
        assert(matches_at(searched, needle, positions[m]));
        assert(searched.subrange(positions[m], positions[m] + needle.len()) != needle);
    }
    assert(byte_pos(searched, p) == byte_pos(t, p));
    lemma_start_of_occurrence(t, len, p);
    lemma_occurrences_at(t, len, searched, positions, m, -1);
    let range = occurrence_at(t, len, byte_pos(t, p) as int)->0;
    let all = occurrences(t, name, case_sensitive);
    choose|k: int| 0 <= k < all.len() && all[k] == range
}

/// The lower case of an ASCII text keeps the places.
pub proof fn law_ascii_text_keeps_places(t: Seq<char>)
    requires
        is_ascii_chars(t),
    ensures
        keeps_places(t, lowercase(t)),
{
    lemma_folded(t, false);
    assert forall|i: int| 0 <= i <= t.len() implies #[trigger] byte_pos(lowercase(t), i)
        == byte_pos(t, i) by {
        lemma_folded_pos(t, false, i);
    }
}

proof fn lemma_found_once(
    t: Seq<char>,
    symbols: Seq<SymbolView>,
    case_sensitive: bool,
    i: int,
    j: int,
)
    requires
        forall|m: int, n: int|
            0 <= m < n < symbols.len() ==> (#[trigger] symbols[m]).name != (
            #[trigger] symbols[n]).name,
        0 <= i < j < all_occurrences(t, symbols, case_sensitive).len(),
        case_sensitive || keeps_places(t, lowercase(t)),
        all_occurrences(t, symbols, case_sensitive)[i].name == all_occurrences(
            t,
            symbols,
            case_sensitive,
        )[j].name,
    ensures
        all_occurrences(t, symbols, case_sensitive)[i].range.start != all_occurrences(
            t,
            symbols,
            case_sensitive,
        )[j].range.start,
    decreases symbols.len(),
{
    let found = all_occurrences(t, symbols, case_sensitive);
    let rest = symbols.drop_last();
    let before = all_occurrences(t, rest, case_sensitive);
    let last = symbols.len() - 1;
    if j < before.len() {
        lemma_found_once(t, rest, case_sensitive, i, j);
    } else if i >= before.len() {
        law_occurrences_are_told_once(
            t,
            symbols[last].name,
            case_sensitive,
            i - before.len(),
            j - before.len(),
        );
    } else {
        assert(before.contains(found[i]));
        lemma_all_occurrences(t, rest, case_sensitive, found[i]);
        let m = choose|m: int|
            0 <= m < rest.len() && (#[trigger] rest[m]).name == found[i].name && occurrences(
                t,
                found[i].name,
                case_sensitive,
            ).contains(found[i].range);
        assert(symbols[m].name != symbols[last].name);
    }
}

/// No symbol is told twice at one place of a document.
pub proof fn law_document_symbols_are_told_once(
    t: Seq<char>,
    symbols: Seq<SymbolView>,
    case_sensitive: bool,
    sorted: Seq<DocumentSymbolView>,
    i: int,
    j: int,
)
    requires
        forall|m: int, n: int|
            0 <= m < n < symbols.len() ==> (#[trigger] symbols[m]).name != (
            #[trigger] symbols[n]).name,
        is_in_document_order(all_occurrences(t, symbols, case_sensitive), sorted),
        0 <= i < j < sorted.len(),
        case_sensitive || keeps_places(t, lowercase(t)),
    ensures
        sorted[i].name != sorted[j].name || sorted[i].range.start != sorted[j].range.start,
{
    let found = all_occurrences(t, symbols, case_sensitive);
    let keys = occurrence_keys(found);
    let order = choose|order: Seq<usize>| #[trigger]
        is_stable_order(keys, order) && sorted == reordered(found, order);
    law_order_is_permutation(keys, order);
    if sorted[i].name == sorted[j].name {
        let a = order[i] as int;
        let b = order[j] as int;
        assert(order[i] != order[j]);
        if a < b {
            lemma_found_once(t, symbols, case_sensitive, a, b);
        } else {
            lemma_found_once(t, symbols, case_sensitive, b, a);
        }
    }
}

} // verus!
