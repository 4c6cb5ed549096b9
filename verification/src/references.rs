//! Where a symbol is referred to in the definitions of symbols.

use crate::gather::gathered;
use crate::ident::{ident_on_line, is_word, is_word_char, lemma_ident_of_len, IdentPattern};
use crate::located::{located_views, LocatedSymbol, LocatedView};
use crate::occurrences::{check_ident, fold, folded, ident_has_len, stretch};
use crate::protocol::{location_views, Location, LocationView, Position, Range};
use crate::search::{
    chars_of, is_line_end, law_char_stands_in_line, law_line_feeds_add_up, law_line_stands_in_text,
    law_matches_found, law_matches_in_order, law_no_match_missed, law_stretch_is_line,
    lemma_no_line_feeds, line_feeds, lines, lines_from, lowercase, match_indices, matches_at,
    matches_from,
};
use crate::symbols::{Symbol, SymbolView};
use crate::text::{
    byte_len, byte_pos, chars_before_byte, law_ascii_offsets, lemma_chars_before_bound,
    lemma_on_char, lemma_pos_monotonic, on_char, unit_pos, utf16_len, utf8_len,
    utf8_offset_to_utf16,
};
use vstd::multiset::Multiset;
use vstd::prelude::*;
use vstd::utf8::is_ascii_chars;

verus! {

/// The reference that starts at character `at` of line `number`: there must be an identifier of
/// `len` bytes.
pub open spec fn reference_at(line: Seq<char>, number: int, len: u32, at: int) -> Option<Range> {
    let unit = unit_pos(line, at) as int;
    if unit <= u32::MAX && ident_has_len(line, unit, len as int) {
        Some(stretch(number, unit, len))
    } else {
        None
    }
}

/// The references that start at the characters `positions` of line `number`.
pub open spec fn references_at(
    line: Seq<char>,
    number: int,
    len: u32,
    positions: Seq<int>,
) -> Seq<Range>
    decreases positions.len(),
{
    if positions.len() == 0 {
        seq![]
    } else {
        let before = references_at(line, number, len, positions.drop_last());
        match reference_at(line, number, len, positions.last()) {
            Some(range) => before.push(range),
            None => before,
        }
    }
}

/// The references in lines: where `needle` is found and is as long as the identifier there.
pub open spec fn references_in_lines(
    text: Seq<Seq<char>>,
    needle: Seq<char>,
    len: u32,
) -> Seq<Range>
    decreases text.len(),
{
    if text.len() == 0 {
        seq![]
    } else {
        let before = references_in_lines(text.drop_last(), needle, len);
        let number = text.len() - 1;
        if number <= u32::MAX {
            before + references_at(
                text.last(),
                number,
                len,
                matches_from(text.last(), needle, 0),
            )
        } else {
            before
        }
    }
}

/// A name that is searched for in definitions.
pub struct Search {
    /// The name as it is searched.
    pub needle: Seq<char>,
    /// The length in bytes of the name as it is known, modulo 2^32.
    pub len: u32,
    pub case_sensitive: bool,
}

/// The search for a name.
pub open spec fn search_for(name: Seq<char>, case_sensitive: bool) -> Search {
    Search {
        needle: folded(name, case_sensitive),
        len: (utf8_len(name) % 0x1_0000_0000) as u32,
        case_sensitive,
    }
}

/// The references in the definition of a symbol. A definition that no file shows has none.
pub open spec fn references_in(symbol: LocatedView, search: Search) -> Seq<LocationView> {
    match (symbol.uri, symbol.symbol.info.definition) {
        (Some(uri), Some(definition)) => {
            references_in_lines(
                lines_from(folded(definition, search.case_sensitive), 0),
                search.needle,
                search.len,
            ).map_values(|range: Range| LocationView { uri, range })
        },
        _ => seq![],
    }
}

/// The references in the definition of one symbol.
#[derive(Debug)]
pub struct ReferenceGroup {
    pub symbol: Symbol,
    pub locations: Vec<Location>,
}

/// What a `ReferenceGroup` says.
pub struct GroupView {
    pub symbol: SymbolView,
    pub locations: Seq<LocationView>,
}

impl View for ReferenceGroup {
    type V = GroupView;

    open spec fn view(&self) -> GroupView {
        GroupView { symbol: self.symbol@, locations: location_views(self.locations@) }
    }
}

/// The views of a list of groups.
pub open spec fn group_views(groups: Seq<ReferenceGroup>) -> Seq<GroupView> {
    groups.map_values(|g: ReferenceGroup| g@)
}

/// The references in the definitions of symbols, by symbol; a symbol without any has no group.
pub open spec fn reference_groups(symbols: Seq<LocatedView>, search: Search) -> Seq<GroupView>
    decreases symbols.len(),
{
    if symbols.len() == 0 {
        seq![]
    } else {
        let before = reference_groups(symbols.drop_last(), search);
        let locations = references_in(symbols.last(), search);
        if locations.len() == 0 {
            before
        } else {
            before.push(GroupView { symbol: symbols.last().symbol, locations })
        }
    }
}

/// The locations of the groups whose definitions could be written to their files.
pub open spec fn written_locations(groups: Seq<GroupView>, written: Seq<bool>) -> Seq<LocationView>
    decreases groups.len(),
{
    if groups.len() == 0 {
        seq![]
    } else {
        let before = written_locations(groups.drop_last(), written);
        if written[groups.len() - 1] {
            before + groups.last().locations
        } else {
            before
        }
    }
}

proof fn lemma_references_at(
    line: Seq<char>,
    number: int,
    len: u32,
    positions: Seq<int>,
    j: int,
    k: int,
)
    ensures
        0 <= k < references_at(line, number, len, positions).len() ==> exists|i: int|
            0 <= i < positions.len() && reference_at(
                line,
                number,
                len,
                #[trigger] positions[i],
            ) == Some(references_at(line, number, len, positions)[k]),
        0 <= j < positions.len() && reference_at(line, number, len, positions[j]) is Some
            ==> references_at(line, number, len, positions).contains(
            reference_at(line, number, len, positions[j])->0,
        ),
    decreases positions.len(),
{
    if positions.len() > 0 {
        let rest = positions.drop_last();
        let before = references_at(line, number, len, rest);
        let all = references_at(line, number, len, positions);
        lemma_references_at(line, number, len, rest, j, k);
        if 0 <= k < before.len() {
            let i = choose|i: int|
                0 <= i < rest.len() && reference_at(line, number, len, #[trigger] rest[i]) == Some(
                    before[k],
                );
            assert(positions[i] == rest[i]);
        } else if k < all.len() {
            assert(positions[positions.len() - 1] == positions.last());
        }
        if 0 <= j < positions.len() && reference_at(line, number, len, positions[j]) is Some {
            let range = reference_at(line, number, len, positions[j])->0;
            if j < rest.len() {
                assert(positions[j] == rest[j]);
                let m = choose|m: int| 0 <= m < before.len() && before[m] == range;
                assert(all[m] == range);
            } else {
                assert(all.last() == range);
            }
        }
    }
}

/// The range of a word that starts at character `at` of line `number`.
pub open spec fn word_range(line: Seq<char>, number: int, at: int, word: Seq<char>) -> Range {
    stretch(number, unit_pos(line, at) as int, utf8_len(word) as u32)
}

/// The references in a line are whole words.
proof fn lemma_references_are_words(line: Seq<char>, number: int, name: Seq<char>, k: int)
    requires
        0 < name.len(),
        utf8_len(name) <= u32::MAX,
        forall|i: int| 0 <= i < name.len() ==> is_word_char(#[trigger] name[i]),
        0 <= k < references_at(
            line,
            number,
            utf8_len(name) as u32,
            matches_from(line, name, 0),
        ).len(),
    ensures
        exists|at: int|
            is_word(line, at, at + name.len()) && #[trigger] line.subrange(at, at + name.len())
                == name && unit_pos(line, at) <= u32::MAX && references_at(
                line,
                number,
                utf8_len(name) as u32,
                matches_from(line, name, 0),
            )[k] == word_range(line, number, at, name),
{
    let len = utf8_len(name) as u32;
    let positions = matches_from(line, name, 0);
    lemma_references_at(line, number, len, positions, 0, k);
    law_matches_found(line, name, 0);
    let found = references_at(line, number, len, positions)[k];
    let i = choose|i: int|
        0 <= i < positions.len() && reference_at(line, number, len, #[trigger] positions[i])
            == Some(found);
    let at = positions[i];
    let word = line.subrange(at, at + name.len());
    assert(matches_at(line, name, at));
    assert forall|j: int| at <= j < at + name.len() implies is_word_char(#[trigger] line[j]) by {
        assert(word[j - at] == line[j]);
    }
    lemma_ident_of_len(line, at, at + name.len());
    assert(line.subrange(at, at + name.len()) == name);
}

/// Wherever the name stands in a line as a whole word, there is a reference.
proof fn lemma_words_are_references(line: Seq<char>, number: int, name: Seq<char>, at: int)
    requires
        0 < name.len(),
        utf8_len(name) <= u32::MAX,
        is_word(line, at, at + name.len()),
        line.subrange(at, at + name.len()) == name,
        unit_pos(line, at) <= u32::MAX,
    ensures
        references_at(
            line,
            number,
            utf8_len(name) as u32,
            matches_from(line, name, 0),
        ).contains(word_range(line, number, at, name)),
{
    let len = utf8_len(name) as u32;
    let positions = matches_from(line, name, 0);
    law_no_match_missed(line, name, 0, at);
    law_matches_found(line, name, 0);
    let k = choose|k: int|
        0 <= k < positions.len() && (#[trigger] positions[k]) <= at && (at == positions[k] || at
            < positions[k] + name.len());
    let other = positions[k];
    if other < at {
        assert(matches_at(line, name, other));
        let word = line.subrange(at, at + name.len());
        assert(line.subrange(other, other + name.len())[at - 1 - other] == line[at - 1]);
        assert(word[at - 1 - other] == line[at + (at - 1 - other)]);
        assert(is_word_char(line[at + (at - 1 - other)]));
    }
    lemma_references_at(line, number, len, positions, k, -1);
    lemma_ident_of_len(line, at, at + name.len());
}

/// Whether `word` stands as a whole word at character `at` of line `i`.
pub open spec fn is_word_of(text: Seq<Seq<char>>, word: Seq<char>, i: int, at: int) -> bool {
    &&& 0 <= i < text.len()
    &&& is_word(text[i], at, at + word.len())
    &&& text[i].subrange(at, at + word.len()) == word
}

/// The lines of the definition of a symbol, as they are searched.
pub open spec fn searched_lines(symbol: LocatedView, case_sensitive: bool) -> Seq<Seq<char>> {
    lines_from(folded(symbol.symbol.info.definition->0, case_sensitive), 0)
}

proof fn lemma_references_in_lines(text: Seq<Seq<char>>, word: Seq<char>, k: int)
    requires
        0 < word.len(),
        utf8_len(word) <= u32::MAX,
        forall|i: int| 0 <= i < word.len() ==> is_word_char(#[trigger] word[i]),
        0 <= k < references_in_lines(text, word, utf8_len(word) as u32).len(),
    ensures
        exists|i: int, at: int| #[trigger]
            is_word_of(text, word, i, at) && i <= u32::MAX && unit_pos(text[i], at) <= u32::MAX
                && references_in_lines(text, word, utf8_len(word) as u32)[k] == word_range(
                text[i],
                i,
                at,
                word,
            ),
    decreases text.len(),
{
    let len = utf8_len(word) as u32;
    let all = references_in_lines(text, word, len);
    let rest = text.drop_last();
    let before = references_in_lines(rest, word, len);
    let number = text.len() - 1;
    if k < before.len() {
        lemma_references_in_lines(rest, word, k);
        let (i, at) = choose|i: int, at: int| #[trigger]
            is_word_of(rest, word, i, at) && i <= u32::MAX && unit_pos(rest[i], at) <= u32::MAX
                && before[k] == word_range(rest[i], i, at, word);
        assert(all[k] == before[k]);
        assert(is_word_of(text, word, i, at));
    } else {
        let line = text.last();
        let found = references_at(line, number, len, matches_from(line, word, 0));
        assert(all[k] == found[k - before.len()]);
        lemma_references_are_words(line, number, word, k - before.len());
        let at = choose|at: int|
            is_word(line, at, at + word.len()) && #[trigger] line.subrange(at, at + word.len())
                == word && unit_pos(line, at) <= u32::MAX && found[k - before.len()] == word_range(
                line,
                number,
                at,
                word,
            );
        assert(is_word_of(text, word, number, at));
    }
}

proof fn lemma_lines_have_references(
    text: Seq<Seq<char>>,
    word: Seq<char>,
    i: int,
    at: int,
)
    requires
        0 < word.len(),
        utf8_len(word) <= u32::MAX,
        is_word_of(text, word, i, at),
        i <= u32::MAX,
        unit_pos(text[i], at) <= u32::MAX,
    ensures
        references_in_lines(text, word, utf8_len(word) as u32).contains(
            word_range(text[i], i, at, word),
        ),
    decreases text.len(),
{
    let range = word_range(text[i], i, at, word);
    let len = utf8_len(word) as u32;
    let all = references_in_lines(text, word, len);
    let rest = text.drop_last();
    let before = references_in_lines(rest, word, len);
    if i < rest.len() {
        assert(rest[i] == text[i]);
        lemma_lines_have_references(rest, word, i, at);
        let k = choose|k: int| 0 <= k < before.len() && before[k] == range;
        assert(all[k] == range);
    } else {
        let line = text.last();
        let found = references_at(line, i, len, matches_from(line, word, 0));
        lemma_words_are_references(line, i, word, at);
        let k = choose|k: int| 0 <= k < found.len() && found[k] == range;
        assert(all[before.len() + k] == range);
    }
}

/// The references to a name are whole words: each is a place in the definition at which the name
/// stands, continued by a word character on neither side.
pub proof fn law_references_are_words(
    symbol: LocatedView,
    name: Seq<char>,
    case_sensitive: bool,
    k: int,
)
    requires
        symbol.uri is Some,
        symbol.symbol.info.definition is Some,
        0 < folded(name, case_sensitive).len(),
        utf8_len(folded(name, case_sensitive)) == utf8_len(name) <= u32::MAX,
        forall|i: int|
            0 <= i < folded(name, case_sensitive).len() ==> is_word_char(
                #[trigger] folded(name, case_sensitive)[i],
            ),
        0 <= k < references_in(symbol, search_for(name, case_sensitive)).len(),
    ensures
        references_in(symbol, search_for(name, case_sensitive))[k].uri == symbol.uri->0,
        exists|i: int, at: int| #[trigger]
            is_word_of(searched_lines(symbol, case_sensitive), folded(name, case_sensitive), i, at)
                && references_in(symbol, search_for(name, case_sensitive))[k].range == word_range(
                searched_lines(symbol, case_sensitive)[i],
                i,
                at,
                folded(name, case_sensitive),
            ),
{
    let text = searched_lines(symbol, case_sensitive);
    lemma_references_in_lines(text, folded(name, case_sensitive), k);
}

/// No reference is missed: wherever the name stands in the definition as a whole word, there is
/// one, as far as 32 bits can tell the place.
pub proof fn law_words_are_references(
    symbol: LocatedView,
    name: Seq<char>,
    case_sensitive: bool,
    i: int,
    at: int,
)
    requires
        symbol.uri is Some,
        symbol.symbol.info.definition is Some,
        0 < folded(name, case_sensitive).len(),
        utf8_len(folded(name, case_sensitive)) == utf8_len(name) <= u32::MAX,
        is_word_of(searched_lines(symbol, case_sensitive), folded(name, case_sensitive), i, at),
        i <= u32::MAX,
        unit_pos(searched_lines(symbol, case_sensitive)[i], at) <= u32::MAX,
    ensures
        references_in(symbol, search_for(name, case_sensitive)).contains(
            LocationView {
                uri: symbol.uri->0,
                range: word_range(
                    searched_lines(symbol, case_sensitive)[i],
                    i,
                    at,
                    folded(name, case_sensitive),
                ),
            },
        ),
{
    let word = folded(name, case_sensitive);
    let text = searched_lines(symbol, case_sensitive);
    let range = word_range(text[i], i, at, word);
    let ranges = references_in_lines(text, word, utf8_len(word) as u32);
    lemma_lines_have_references(text, word, i, at);
    let k = choose|k: int| 0 <= k < ranges.len() && ranges[k] == range;
    assert(references_in(symbol, search_for(name, case_sensitive))[k] == (LocationView {
        uri: symbol.uri->0,
        range,
    }));
}

/// A group of references is of one of the symbols, holds all references in its definition, and
/// is not empty. The symbol's index is given.
pub proof fn law_group_is_of_symbol(symbols: Seq<LocatedView>, search: Search, k: int) -> (i: int)
    requires
        0 <= k < reference_groups(symbols, search).len(),
    ensures
        0 <= i < symbols.len(),
        reference_groups(symbols, search)[k] == (GroupView {
            symbol: symbols[i].symbol,
            locations: references_in(symbols[i], search),
        }),
        references_in(symbols[i], search).len() > 0,
    decreases symbols.len(),
{
    let before = reference_groups(symbols.drop_last(), search);
    if k < before.len() {
        law_group_is_of_symbol(symbols.drop_last(), search, k)
    } else {
        symbols.len() - 1
    }
}

/// The references in the definitions of symbols, in whatever order.
pub open spec fn all_references(
    symbols: Seq<LocatedView>,
    search: Search,
) -> Multiset<LocationView> {
    gathered(symbols, |symbol: LocatedView| references_in(symbol, search))
}

/// The locations of all groups are the references in all definitions.
pub proof fn law_all_references_are_told(
    symbols: Seq<LocatedView>,
    search: Search,
    written: Seq<bool>,
)
    requires
        forall|i: int| 0 <= i < reference_groups(symbols, search).len() ==> #[trigger] written[i],
    ensures
        written_locations(reference_groups(symbols, search), written).to_multiset()
            == all_references(symbols, search),
    decreases symbols.len(),
{
    broadcast use vstd::seq_lib::group_to_multiset_ensures;

    let groups = reference_groups(symbols, search);
    if symbols.len() > 0 {
        let before = reference_groups(symbols.drop_last(), search);
        let found = references_in(symbols.last(), search);
        law_all_references_are_told(symbols.drop_last(), search, written);
        if found.len() == 0 {
            assert(found =~= Seq::<LocationView>::empty());
            assert(all_references(symbols.drop_last(), search).add(found.to_multiset())
                =~= all_references(symbols.drop_last(), search));
        } else {
            assert(groups.drop_last() =~= before);
            assert(written[groups.len() - 1]);
            vstd::seq_lib::lemma_multiset_commutative(written_locations(before, written), found);
        }
    } else {
        assert(written_locations(groups, written) =~= Seq::<LocationView>::empty());
    }
}

/// The length of a name, modulo 2^32.
fn len_of_name(name: &str) -> (r: u32)
    ensures
        r == utf8_len(name@) % 0x1_0000_0000,
{
    let len: u64 = byte_len(name) as u64;
    (len % 0x1_0000_0000) as u32
}

/// The reference that starts at byte `offset` of a line.
fn find_reference(
    pattern: &IdentPattern,
    line: &str,
    number: u32,
    len: u32,
    offset: usize,
) -> (r: Option<Range>)
    requires
        on_char(line@, offset as int),
    ensures
        r == reference_at(
            line@,
            number as int,
            len,
            chars_before_byte(line@, offset as int) as int,
        ),
{
    proof {
        lemma_chars_before_bound(line@, offset as int);
        lemma_on_char(line@, chars_before_byte(line@, offset as int) as int);
    }
    let unit: usize = match utf8_offset_to_utf16(line, offset) {
        Some(unit) => unit,
        None => {
            return None;
        },
    };
    if unit as u64 > u32::MAX as u64 {
        return None;
    }
    let start = Position { line: number, character: unit as u32 };
    if check_ident(pattern, line, start, len as usize) {
        let end = Position { line: number, character: start.character.wrapping_add(len) };
        Some(Range { start, end })
    } else {
        None
    }
}

/// The references in a line.
fn find_in_line(
    pattern: &IdentPattern,
    line: &str,
    number: u32,
    needle: &Vec<char>,
    len: u32,
) -> (r: Vec<Range>)
    ensures
        r@ == references_at(line@, number as int, len, matches_from(line@, needle@, 0)),
{
    let total: usize = byte_len(line);
    let chars = chars_of(line);
    let offsets = match_indices(&chars, needle);
    let ghost positions = matches_from(line@, needle@, 0);
    let mut r: Vec<Range> = Vec::new();
    let mut k: usize = 0;
    proof {
        assert(positions.take(0) =~= Seq::<int>::empty());
        law_matches_found(line@, needle@, 0);
    }
    while k < offsets.len()
        invariant
            k <= offsets.len(),
            offsets@.len() == positions.len(),
            forall|j: int|
                0 <= j < offsets@.len() ==> #[trigger] offsets@[j] == byte_pos(
                    line@,
                    positions[j],
                ),
            forall|j: int| 0 <= j < positions.len() ==> 0 <= #[trigger] positions[j] <= line@.len(),
            r@ == references_at(line@, number as int, len, positions.take(k as int)),
        decreases offsets.len() - k,
    {
        proof {
            assert(positions.take(k + 1).drop_last() =~= positions.take(k as int));
            assert(positions.take(k + 1).last() == positions[k as int]);
            lemma_on_char(line@, positions[k as int]);
        }
        if let Some(range) = find_reference(pattern, line, number, len, offsets[k]) {
            r.push(range);
        }
        k += 1;
    }
    proof {
        assert(positions.take(k as int) =~= positions);
    }
    r
}

/// The references in the definition of a symbol.
fn find_in_symbol(
    pattern: &IdentPattern,
    symbol: &LocatedSymbol,
    needle: &Vec<char>,
    len: u32,
    case_sensitive: bool,
) -> (r: Vec<Location>)
    ensures
        location_views(r@) == references_in(
            symbol@,
            Search { needle: needle@, len, case_sensitive },
        ),
{
    let mut r: Vec<Location> = Vec::new();
    let (uri, definition) = match (&symbol.uri, &symbol.symbol.info.definition) {
        (Some(uri), Some(definition)) => (uri, definition),
        _ => {
            proof {
                assert(location_views(r@) =~= Seq::<LocationView>::empty());
            }
            return r;
        },
    };
    let text = fold(definition.as_str(), case_sensitive);
    let all_lines = lines(text.as_str());
    let ghost line_seq = lines_from(text@, 0);
    let ghost to_location = |range: Range| LocationView { uri: uri@, range };
    let mut i: usize = 0;
    proof {
        assert(line_seq.take(0) =~= Seq::<Seq<char>>::empty());
        assert(location_views(r@) =~= references_in_lines(
            line_seq.take(0),
            needle@,
            len,
        ).map_values(to_location));
    }
    while i < all_lines.len()
        invariant
            i <= all_lines.len(),
            all_lines@.len() == line_seq.len(),
            forall|k: int| 0 <= k < all_lines@.len() ==> (#[trigger] all_lines@[k])@ == line_seq[k],
            to_location == (|range: Range| LocationView { uri: uri@, range }),
            location_views(r@) == references_in_lines(
                line_seq.take(i as int),
                needle@,
                len,
            ).map_values(to_location),
        decreases all_lines.len() - i,
    {
        let ghost before = references_in_lines(line_seq.take(i as int), needle@, len);
        proof {
            assert(line_seq.take(i + 1).drop_last() =~= line_seq.take(i as int));
            assert(line_seq.take(i + 1).last() == line_seq[i as int]);
        }
        if i as u64 <= u32::MAX as u64 {
            let ranges = find_in_line(pattern, all_lines[i], i as u32, needle, len);
            let mut k: usize = 0;
            proof {
                assert(ranges@.take(0) =~= Seq::<Range>::empty());
                assert(before + Seq::<Range>::empty() =~= before);
            }
            while k < ranges.len()
                invariant
                    k <= ranges.len(),
                    to_location == (|range: Range| LocationView { uri: uri@, range }),
                    location_views(r@) == (before + ranges@.take(k as int)).map_values(
                        to_location,
                    ),
                decreases ranges.len() - k,
            {
                let ghost old_r = r@;
                r.push(Location { uri: uri.clone(), range: ranges[k] });
                proof {
                    let next = LocationView { uri: uri@, range: ranges@[k as int] };
                    assert(location_views(r@) =~= location_views(old_r).push(next));
                    assert(before + ranges@.take(k + 1) =~= (before + ranges@.take(k as int)).push(
                        ranges@[k as int],
                    ));
                    assert(location_views(r@) =~= (before + ranges@.take(k + 1)).map_values(
                        to_location,
                    ));
                }
                k += 1;
            }
            proof {
                assert(ranges@.take(k as int) =~= ranges@);
            }
        }
        i += 1;
    }
    proof {
        assert(line_seq.take(i as int) =~= line_seq);
    }
    r
}

/// The references to a symbol in the definitions of symbols, by symbol.
pub fn find_references(
    pattern: &IdentPattern,
    symbols: &Vec<LocatedSymbol>,
    name: &str,
    case_sensitive: bool,
) -> (r: Vec<ReferenceGroup>)
    ensures
        group_views(r@) == reference_groups(
            located_views(symbols@),
            search_for(name@, case_sensitive),
        ),
{
    let ghost search = search_for(name@, case_sensitive);
    let ghost views = located_views(symbols@);
    let len: u32 = len_of_name(name);
    let needle_text = fold(name, case_sensitive);
    let needle = chars_of(needle_text.as_str());
    let mut r: Vec<ReferenceGroup> = Vec::new();
    let mut i: usize = 0;
    proof {
        assert(views.take(0) =~= Seq::<LocatedView>::empty());
        assert(group_views(r@) =~= Seq::<GroupView>::empty());
    }
    while i < symbols.len()
        invariant
            i <= symbols.len(),
            views == located_views(symbols@),
            search == (Search { needle: needle@, len, case_sensitive }),
            group_views(r@) == reference_groups(views.take(i as int), search),
        decreases symbols.len() - i,
    {
        proof {
            assert(views.take(i + 1).drop_last() =~= views.take(i as int));
            assert(views.take(i + 1).last() == views[i as int]);
        }
        let locations = find_in_symbol(pattern, &symbols[i], &needle, len, case_sensitive);
        if locations.len() > 0 {
            let ghost old_r = r@;
            let ghost group = GroupView {
                symbol: symbols@[i as int].symbol@,
                locations: location_views(locations@),
            };
            r.push(ReferenceGroup { symbol: symbols[i].symbol.clone(), locations });
            proof {
                assert(group_views(r@) =~= group_views(old_r).push(group));
            }
        }
        i += 1;
    }
    proof {
        assert(views.take(i as int) =~= views);
    }
    r
}

/// The locations of the groups whose definitions could be written to their files.
pub fn keep_written(groups: &Vec<ReferenceGroup>, written: &Vec<bool>) -> (r: Vec<Location>)
    requires
        written@.len() == groups@.len(),
    ensures
        location_views(r@) == written_locations(group_views(groups@), written@),
{
    let ghost views = group_views(groups@);
    let mut r: Vec<Location> = Vec::new();
    let mut i: usize = 0;
    proof {
        assert(views.take(0) =~= Seq::<GroupView>::empty());
        assert(location_views(r@) =~= Seq::<LocationView>::empty());
    }
    while i < groups.len()
        invariant
            i <= groups.len(),
            written@.len() == groups@.len(),
            views == group_views(groups@),
            location_views(r@) == written_locations(views.take(i as int), written@),
        decreases groups.len() - i,
    {
        let ghost before = location_views(r@);
        proof {
            assert(views.take(i + 1).drop_last() =~= views.take(i as int));
            assert(views.take(i + 1).last() == views[i as int]);
        }
        if written[i] {
            let locations = &groups[i].locations;
            let ghost all = location_views(locations@);
            let mut k: usize = 0;
            proof {
                assert(all.take(0) =~= Seq::<LocationView>::empty());
                assert(before + Seq::<LocationView>::empty() =~= before);
            }
            while k < locations.len()
                invariant
                    k <= locations.len(),
                    all == location_views(locations@),
                    location_views(r@) == before + all.take(k as int),
                decreases locations.len() - k,
            {
                let ghost old_r = r@;
                r.push(Location { uri: locations[k].uri.clone(), range: locations[k].range });
                proof {
                    assert(location_views(r@) =~= location_views(old_r).push(all[k as int]));
                    assert(before + all.take(k + 1) =~= (before + all.take(k as int)).push(
                        all[k as int],
                    ));
                }
                k += 1;
            }
            proof {
                assert(all.take(k as int) =~= all);
            }
        }
        i += 1;
    }
    proof {
        assert(views.take(i as int) =~= views);
    }
    r
}

proof fn lemma_reference_range(text: Seq<Seq<char>>, needle: Seq<char>, len: u32, k: int)
    requires
        0 <= k < references_in_lines(text, needle, len).len(),
    ensures
        ({
            let range = references_in_lines(text, needle, len)[k];
            &&& range.end.line == range.start.line
            &&& range.end.character == (range.start.character + len) % 0x1_0000_0000
        }),
    decreases text.len(),
{
    let before = references_in_lines(text.drop_last(), needle, len);
    if k < before.len() {
        lemma_reference_range(text.drop_last(), needle, len, k);
    } else {
        let line = text.last();
        let positions = matches_from(line, needle, 0);
        lemma_references_at(line, text.len() - 1, len, positions, 0, k - before.len());
    }
}

/// The range of a reference lies on one line and is as long as the name, in bytes; where 32 bits
/// can not tell the end, what they can tell of it is told. An ASCII name is as long in characters.
pub proof fn law_reference_is_as_long_as_name(
    symbol: LocatedView,
    name: Seq<char>,
    case_sensitive: bool,
    k: int,
)
    requires
        0 <= k < references_in(symbol, search_for(name, case_sensitive)).len(),
    ensures
        ({
            let range = references_in(symbol, search_for(name, case_sensitive))[k].range;
            let end = range.start.character + utf8_len(name);
            &&& range.end.line == range.start.line
            &&& range.end.character == end % 0x1_0000_0000
            &&& end <= u32::MAX ==> range.end.character == end
            &&& is_ascii_chars(name) ==> end == range.start.character + name.len()
        }),
{
    let search = search_for(name, case_sensitive);
    lemma_reference_range(searched_lines(symbol, case_sensitive), search.needle, search.len, k);
    if is_ascii_chars(name) {
        law_ascii_offsets(name);
    }
}

/// Where a reference is told, the name stands in the definition: on the line that the range says,
/// so many UTF-16 units behind the start of the line as the range says, and continued by a word
/// character on neither side. Where the case of letters makes no difference, this is so of the two
/// in lower case. The character at which the name stands and the one at which its line starts are
/// given.
pub proof fn law_name_stands_at_reference(
    symbol: LocatedView,
    name: Seq<char>,
    case_sensitive: bool,
    text: Seq<char>,
    word: Seq<char>,
    k: int,
) -> (place: (int, int))
    requires
        symbol.uri is Some,
        symbol.symbol.info.definition is Some,
        case_sensitive ==> text == symbol.symbol.info.definition->0 && word == name,
        !case_sensitive ==> text == lowercase(symbol.symbol.info.definition->0) && word
            == lowercase(name),
        0 < word.len(),
        utf8_len(word) == utf8_len(name) <= u32::MAX,
        forall|i: int| 0 <= i < word.len() ==> is_word_char(#[trigger] word[i]),
        0 <= k < references_in(symbol, search_for(name, case_sensitive)).len(),
    ensures
        ({
            let (p, b) = place;
            let found = references_in(symbol, search_for(name, case_sensitive))[k];
            let start = found.range.start;
            &&& found.uri == symbol.uri->0
            &&& 0 <= b <= p
            &&& p + word.len() <= text.len()
            &&& text.subrange(p, p + word.len()) == word
            &&& is_word(text, p, p + word.len())
            &&& start.line == line_feeds(text.take(p))
            &&& b == 0 || text[b - 1] == '\n'
            &&& forall|j: int| b <= j < p ==> #[trigger] text[j] != '\n'
            &&& start.character == utf16_len(text.subrange(b, p))
        }),
{
    let n = word.len() as int;
    let lines = searched_lines(symbol, case_sensitive);
    lemma_references_in_lines(lines, word, k);
    let found = references_in_lines(lines, word, utf8_len(word) as u32)[k];
    let (i, at) = choose|i: int, at: int| #[trigger]
        is_word_of(lines, word, i, at) && i <= u32::MAX && unit_pos(lines[i], at) <= u32::MAX
            && found == word_range(lines[i], i, at, word);
    let line = lines[i];
    let a = law_line_stands_in_text(text, i);
    let p = a + at;
    let e = a + line.len();
    assert forall|j: int| 0 <= j < line.len() implies #[trigger] line[j] == text[a + j] by {
        assert(text.subrange(a, e)[j] == text[a + j]);
    }
    assert(text.subrange(p, p + n) =~= line.subrange(at, at + n));
    assert forall|j: int| p <= j < p + n implies is_word_char(#[trigger] text[j]) by {
        assert(line[j - a] == text[j]);
    }
    if at > 0 {
        assert(line[at - 1] == text[p - 1]);
    }
    if at + n < line.len() {
        assert(line[at + n] == text[p + n]);
    }
    assert(is_word(text, p, p + n));
    lemma_line_feeds_before(text, a, p);
    assert(line.take(at) =~= text.subrange(a, p));
    (p, a)
}

/// No reference is missed: wherever the name stands in the definition, continued by a word
/// character on neither side, there is a reference that starts there, as far as 32 bits can tell
/// the place. Its index is given.
pub proof fn law_reference_where_name_stands(
    symbol: LocatedView,
    name: Seq<char>,
    case_sensitive: bool,
    text: Seq<char>,
    word: Seq<char>,
    p: int,
    b: int,
) -> (k: int)
    requires
        symbol.uri is Some,
        symbol.symbol.info.definition is Some,
        case_sensitive ==> text == symbol.symbol.info.definition->0 && word == name,
        !case_sensitive ==> text == lowercase(symbol.symbol.info.definition->0) && word
            == lowercase(name),
        0 < word.len(),
        utf8_len(word) == utf8_len(name) <= u32::MAX,
        is_word(text, p, p + word.len()),
        text.subrange(p, p + word.len()) == word,
        0 <= b <= p,
        b == 0 || text[b - 1] == '\n',
        forall|j: int| b <= j < p ==> #[trigger] text[j] != '\n',
        line_feeds(text.take(p)) <= u32::MAX,
        utf16_len(text.subrange(b, p)) <= u32::MAX,
    ensures
        0 <= k < references_in(symbol, search_for(name, case_sensitive)).len(),
        ({
            let found = references_in(symbol, search_for(name, case_sensitive))[k];
            &&& found.uri == symbol.uri->0
            &&& found.range.start.line == line_feeds(text.take(p))
            &&& found.range.start.character == utf16_len(text.subrange(b, p))
        }),
{
    let n = word.len() as int;
    let lines = searched_lines(symbol, case_sensitive);
    assert(is_word_char(text[p]));
    let a = law_char_stands_in_line(text, p);
    if a < b {
        assert(text[b - 1] == '\n');
    }
    if b < a {
        assert(text[a - 1] == '\n');
    }
    let i = line_feeds(text.take(p)) as int;
    let line = lines[i];
    let at = p - a;
    let e = a + line.len();
    if e < p + n {
        assert(is_word_char(text[e]));
    }
    assert forall|j: int| 0 <= j < line.len() implies #[trigger] line[j] == text[a + j] by {
        assert(text.subrange(a, e)[j] == text[a + j]);
    }
    assert forall|j: int| at <= j < at + n implies is_word_char(#[trigger] line[j]) by {
        assert(is_word_char(text[a + j]));
    }
    assert(line.subrange(at, at + n) =~= text.subrange(p, p + n));
    assert(is_word_of(lines, word, i, at));
    assert(line.take(at) =~= text.subrange(b, p));
    law_words_are_references(symbol, name, case_sensitive, i, at);
    let all = references_in(symbol, search_for(name, case_sensitive));
    let wanted = LocationView { uri: symbol.uri->0, range: word_range(line, i, at, word) };
    choose|k: int| 0 <= k < all.len() && all[k] == wanted
}

proof fn lemma_line_references_in_order(
    line: Seq<char>,
    number: int,
    len: u32,
    positions: Seq<int>,
    i: int,
    j: int,
)
    requires
        forall|k: int| 0 <= k < positions.len() ==> 0 <= #[trigger] positions[k] <= line.len(),
        forall|k: int, m: int|
            0 <= k < m < positions.len() ==> #[trigger] positions[k] < #[trigger] positions[m],
        0 <= i < j < references_at(line, number, len, positions).len(),
    ensures
        references_at(line, number, len, positions)[i].start.line == references_at(
            line,
            number,
            len,
            positions,
        )[j].start.line,
        references_at(line, number, len, positions)[i].start.character < references_at(
            line,
            number,
            len,
            positions,
        )[j].start.character,
    decreases positions.len(),
{
    let rest = positions.drop_last();
    let before = references_at(line, number, len, rest);
    if j < before.len() {
        lemma_line_references_in_order(line, number, len, rest, i, j);
    } else {
        lemma_references_at(line, number, len, rest, 0, i);
        let m = choose|m: int|
            0 <= m < rest.len() && reference_at(line, number, len, #[trigger] rest[m]) == Some(
                before[i],
            );
        let last = positions.len() - 1;
        assert(positions[m] < positions[last]);
        lemma_pos_monotonic(line, positions[m], positions[last]);
    }
}

proof fn lemma_references_in_order(
    text: Seq<Seq<char>>,
    needle: Seq<char>,
    len: u32,
    i: int,
    j: int,
)
    requires
        0 <= i < references_in_lines(text, needle, len).len(),
    ensures
        ({
            let all = references_in_lines(text, needle, len);
            &&& all[i].start.line < text.len()
            &&& i < j < all.len() ==> all[i].start.line < all[j].start.line || (all[i].start.line
                == all[j].start.line && all[i].start.character < all[j].start.character)
        }),
    decreases text.len(),
{
    let rest = text.drop_last();
    let before = references_in_lines(rest, needle, len);
    let all = references_in_lines(text, needle, len);
    let number = text.len() - 1;
    let line = text.last();
    let positions = matches_from(line, needle, 0);
    let found = references_at(line, number, len, positions);
    law_matches_found(line, needle, 0);
    assert forall|k: int, m: int| 0 <= k < m < positions.len() implies #[trigger] positions[k]
        < #[trigger] positions[m] by {
        law_matches_in_order(line, needle, 0, k, m);
    }
    if i < before.len() {
        lemma_references_in_order(rest, needle, len, i, j);
        if before.len() <= j < all.len() {
            lemma_references_at(line, number, len, positions, 0, j - before.len());
        }
    } else {
        lemma_references_at(line, number, len, positions, 0, i - before.len());
        if i < j < all.len() {
            lemma_line_references_in_order(
                line,
                number,
                len,
                positions,
                i - before.len(),
                j - before.len(),
            );
        }
    }
}

/// Each reference in a definition is told once: a later one starts at a later place.
pub proof fn law_references_are_told_once(symbol: LocatedView, search: Search, i: int, j: int)
    requires
        0 <= i < j < references_in(symbol, search).len(),
    ensures
        ({
            let first = references_in(symbol, search)[i].range.start;
            let second = references_in(symbol, search)[j].range.start;
            first.line < second.line || (first.line == second.line && first.character
                < second.character)
        }),
{
    let text = lines_from(folded(symbol.symbol.info.definition->0, search.case_sensitive), 0);
    lemma_references_in_order(text, search.needle, search.len, i, j);
}

/// A symbol in whose definition there are references has a group, which holds all of them. Its
/// index is given.
pub proof fn law_symbol_has_group(symbols: Seq<LocatedView>, search: Search, i: int) -> (k: int)
    requires
        0 <= i < symbols.len(),
        references_in(symbols[i], search).len() > 0,
    ensures
        0 <= k < reference_groups(symbols, search).len(),
        reference_groups(symbols, search)[k].symbol == symbols[i].symbol,
        reference_groups(symbols, search)[k].locations == references_in(symbols[i], search),
    decreases symbols.len(),
{
    if i < symbols.len() - 1 {
        law_symbol_has_group(symbols.drop_last(), search, i)
    } else {
        reference_groups(symbols.drop_last(), search).len() as int
    }
}

/// No two groups are of the same item of the list: a later group is of a later item. The indices of
/// the items are given.
pub proof fn law_groups_are_of_different_symbols(
    symbols: Seq<LocatedView>,
    search: Search,
    j: int,
    k: int,
) -> (at: (int, int))
    requires
        0 <= j < k < reference_groups(symbols, search).len(),
    ensures
        0 <= at.0 < at.1 < symbols.len(),
        reference_groups(symbols, search)[j].symbol == symbols[at.0].symbol,
        reference_groups(symbols, search)[k].symbol == symbols[at.1].symbol,
    decreases symbols.len(),
{
    let rest = symbols.drop_last();
    let before = reference_groups(rest, search);
    if k < before.len() {
        law_groups_are_of_different_symbols(rest, search, j, k)
    } else {
        (law_group_is_of_symbol(rest, search, j), symbols.len() - 1)
    }
}

/// The answer holds the locations of the groups that were written, group after group, and those of
/// no other.
pub proof fn law_written_locations_are_kept(groups: Seq<GroupView>, written: Seq<bool>)
    ensures
        written_locations(groups, written) == Seq::new(
            groups.len(),
            |i: int|
                if written[i] {
                    groups[i].locations
                } else {
                    Seq::<LocationView>::empty()
                },
        ).flatten(),
    decreases groups.len(),
{
    let parts = Seq::new(
        groups.len(),
        |i: int|
            if written[i] {
                groups[i].locations
            } else {
                Seq::<LocationView>::empty()
            },
    );
    if groups.len() > 0 {
        let rest = groups.drop_last();
        let before = Seq::new(
            rest.len(),
            |i: int|
                if written[i] {
                    rest[i].locations
                } else {
                    Seq::<LocationView>::empty()
                },
        );
        law_written_locations_are_kept(rest, written);
        assert(parts.drop_last() =~= before);
        parts.lemma_flatten_and_flatten_alt_are_equivalent();
        before.lemma_flatten_and_flatten_alt_are_equivalent();
        assert(written_locations(groups, written) =~= written_locations(rest, written)
            + parts.last());
    }
}

proof fn lemma_reference_of_lines(
    text: Seq<Seq<char>>,
    needle: Seq<char>,
    len: u32,
    k: int,
) -> (at: (int, int))
    requires
        0 <= k < references_in_lines(text, needle, len).len(),
    ensures
        0 <= at.0 < text.len(),
        at.0 <= u32::MAX,
        matches_at(text[at.0], needle, at.1),
        reference_at(text[at.0], at.0, len, at.1) == Some(
            references_in_lines(text, needle, len)[k],
        ),
    decreases text.len(),
{
    let rest = text.drop_last();
    let before = references_in_lines(rest, needle, len);
    if k < before.len() {
        lemma_reference_of_lines(rest, needle, len, k)
    } else {
        let line = text.last();
        let number = text.len() - 1;
        let positions = matches_from(line, needle, 0);
        let found = references_at(line, number, len, positions);
        law_matches_found(line, needle, 0);
        lemma_references_at(line, number, len, positions, 0, k - before.len());
        let i = choose|i: int|
            0 <= i < positions.len() && reference_at(line, number, len, #[trigger] positions[i])
                == Some(found[k - before.len()]);
        assert(matches_at(line, needle, positions[i]));
        (number, positions[i])
    }
}

/// Whatever the name is made of, it stands in the definition where a reference is told, and the
/// identifier there has as many bytes. `text` and `needle` are the definition and the name, in
/// lower case if the case of letters makes no difference. The character at which the name stands
/// and those between which its line stands are given.
pub proof fn law_any_name_stands_at_reference(
    symbol: LocatedView,
    name: Seq<char>,
    case_sensitive: bool,
    text: Seq<char>,
    needle: Seq<char>,
    k: int,
) -> (place: (int, int, int))
    requires
        symbol.uri is Some,
        symbol.symbol.info.definition is Some,
        case_sensitive ==> text == symbol.symbol.info.definition->0 && needle == name,
        !case_sensitive ==> text == lowercase(symbol.symbol.info.definition->0) && needle
            == lowercase(name),
        utf8_len(name) <= u32::MAX,
        0 <= k < references_in(symbol, search_for(name, case_sensitive)).len(),
    ensures
        ({
            let (p, b, e) = place;
            let found = references_in(symbol, search_for(name, case_sensitive))[k];
            let start = found.range.start;
            let ident = ident_on_line(text.subrange(b, e), start.character as int);
            &&& found.uri == symbol.uri->0
            &&& 0 <= b <= p
            &&& p + needle.len() <= e <= text.len()
            &&& text.subrange(p, p + needle.len()) == needle
            &&& start.line == line_feeds(text.take(p))
            &&& b == 0 || text[b - 1] == '\n'
            &&& forall|j: int| b <= j < e ==> #[trigger] text[j] != '\n'
            &&& is_line_end(text, e)
            &&& start.character == utf16_len(text.subrange(b, p))
            &&& ident is Some
            &&& utf8_len(ident->0) == utf8_len(name)
        }),
{
    let lines = searched_lines(symbol, case_sensitive);
    let (i, at) = lemma_reference_of_lines(lines, needle, utf8_len(name) as u32, k);
    let line = lines[i];
    let a = law_line_stands_in_text(text, i);
    let p = a + at;
    let e = a + line.len();
    assert(text.subrange(a, e) == line);
    assert(text.subrange(p, p + needle.len()) =~= line.subrange(at, at + needle.len()));
    lemma_line_feeds_before(text, a, p);
    assert(line.take(at) =~= text.subrange(a, p));
    (p, a, e)
}

/// Between the start of a line and a character of it there are no line feeds.
proof fn lemma_line_feeds_before(text: Seq<char>, a: int, p: int)
    requires
        0 <= a <= p <= text.len(),
        forall|j: int| a <= j < p ==> #[trigger] text[j] != '\n',
    ensures
        line_feeds(text.take(p)) == line_feeds(text.take(a)),
{
    let between = text.subrange(a, p);
    assert forall|j: int| 0 <= j < between.len() implies #[trigger] between[j] != '\n' by {
        assert(text[a + j] != '\n');
    }
    lemma_no_line_feeds(between);
    law_line_feeds_add_up(text.take(a), between);
    assert(text.take(a) + between =~= text.take(p));
}

proof fn lemma_reference_in_lines(
    text: Seq<Seq<char>>,
    needle: Seq<char>,
    len: u32,
    i: int,
    j: int,
) -> (k: int)
    requires
        0 <= i < text.len(),
        i <= u32::MAX,
        0 <= j < matches_from(text[i], needle, 0).len(),
        reference_at(text[i], i, len, matches_from(text[i], needle, 0)[j]) is Some,
    ensures
        0 <= k < references_in_lines(text, needle, len).len(),
        reference_at(text[i], i, len, matches_from(text[i], needle, 0)[j]) == Some(
            references_in_lines(text, needle, len)[k],
        ),
    decreases text.len(),
{
    let rest = text.drop_last();
    let before = references_in_lines(rest, needle, len);
    if i < rest.len() {
        lemma_reference_in_lines(rest, needle, len, i, j)
    } else {
        let positions = matches_from(text[i], needle, 0);
        let found = references_at(text[i], i, len, positions);
        let range = reference_at(text[i], i, len, positions[j])->0;
        lemma_references_at(text[i], i, len, positions, j, -1);
        let m = choose|m: int| 0 <= m < found.len() && found[m] == range;
        assert(references_in_lines(text, needle, len)[before.len() + m] == range);
        before.len() + m
    }
}

/// No reference is missed, whatever the name is made of: where it stands in a line of the
/// definition, no earlier place of the line at which it stands overlaps, and the identifier there
/// has as many bytes, there is a reference that starts there, as far as 32 bits can tell the place.
/// Its index is given.
pub proof fn law_reference_where_any_name_stands(
    symbol: LocatedView,
    name: Seq<char>,
    case_sensitive: bool,
    text: Seq<char>,
    needle: Seq<char>,
    p: int,
    b: int,
    e: int,
) -> (k: int)
    requires
        symbol.uri is Some,
        symbol.symbol.info.definition is Some,
        case_sensitive ==> text == symbol.symbol.info.definition->0 && needle == name,
        !case_sensitive ==> text == lowercase(symbol.symbol.info.definition->0) && needle
            == lowercase(name),
        utf8_len(name) <= u32::MAX,
        0 < needle.len(),
        0 <= b <= p,
        p + needle.len() <= e <= text.len(),
        text.subrange(p, p + needle.len()) == needle,
        forall|q: int|
            b <= q < p < q + needle.len() ==> #[trigger] text.subrange(q, q + needle.len())
                != needle,
        b == 0 || text[b - 1] == '\n',
        forall|j: int| b <= j < e ==> #[trigger] text[j] != '\n',
        is_line_end(text, e),
        e < text.len() && text[e] == '\n' ==> text[e - 1] != '\r',
        line_feeds(text.take(p)) <= u32::MAX,
        utf16_len(text.subrange(b, p)) <= u32::MAX,
        ({
            let ident = ident_on_line(text.subrange(b, e), utf16_len(text.subrange(b, p)) as int);
            ident is Some && utf8_len(ident->0) == utf8_len(name)
        }),
    ensures
        0 <= k < references_in(symbol, search_for(name, case_sensitive)).len(),
        ({
            let found = references_in(symbol, search_for(name, case_sensitive))[k];
            &&& found.uri == symbol.uri->0
            &&& found.range.start.line == line_feeds(text.take(p))
            &&& found.range.start.character == utf16_len(text.subrange(b, p))
        }),
{
    let lines = searched_lines(symbol, case_sensitive);
    let len = utf8_len(name) as u32;
    law_stretch_is_line(text, b, e, p);
    let i = line_feeds(text.take(p)) as int;
    let line = lines[i];
    let at = p - b;
    assert(line.subrange(at, at + needle.len()) =~= text.subrange(p, p + needle.len()));
    assert forall|q: int| 0 <= q < at < q + needle.len() implies !#[trigger] matches_at(
        line,
        needle,
        q,
    ) by {
        if matches_at(line, needle, q) {
            let first = b + q;
            assert(line.subrange(q, q + needle.len()) =~= text.subrange(
                first,
                first + needle.len(),
            ));
        }
    }
    let j = lemma_match_is_found(line, needle, at);
    assert(line.take(at) =~= text.subrange(b, p));
    lemma_reference_in_lines(lines, needle, len, i, j)
}

/// A match that no earlier one overlaps is found. Its index is given.
proof fn lemma_match_is_found(line: Seq<char>, needle: Seq<char>, at: int) -> (j: int)
    requires
        matches_at(line, needle, at),
        forall|q: int|
            0 <= q < at < q + needle.len() ==> !#[trigger] matches_at(line, needle, q),
    ensures
        0 <= j < matches_from(line, needle, 0).len(),
        matches_from(line, needle, 0)[j] == at,
{
    let positions = matches_from(line, needle, 0);
    law_no_match_missed(line, needle, 0, at);
    law_matches_found(line, needle, 0);
    let j = choose|j: int|
        0 <= j < positions.len() && (#[trigger] positions[j]) <= at && (at == positions[j] || at
            < positions[j] + needle.len());
    assert(matches_at(line, needle, positions[j]));
    j
}

} // verus!
