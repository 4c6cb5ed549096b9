//! Semantic tokens: places in a document, each relative to the one before it.

use crate::protocol::{Position, Range};
use crate::sort::{
    comes_before, is_stable_order, law_reordered_keeps_items, law_sorted_keys_stay, reordered,
    sort_order,
};
use vstd::prelude::*;

verus! {

/// A stretch of one line, placed relative to the token before it.
#[derive(Debug, Clone, Copy, PartialEq, Eq, Structural)]
pub struct SemanticToken {
    pub delta_line: u32,
    pub delta_start: u32,
    pub length: u32,
    pub token_type: u32,
    pub token_modifiers_bitset: u32,
}

/// Places in the order of a document: by line, and by character in a line.
pub open spec fn place_key(p: Position) -> u64 {
    (p.line * 0x1_0000_0000 + p.character) as u64
}

/// Whether `a` is not behind `b`.
pub open spec fn not_behind(a: Position, b: Position) -> bool {
    a.line < b.line || (a.line == b.line && a.character <= b.character)
}

/// The keys by which ranges are sorted.
pub open spec fn start_keys(ranges: Seq<Range>) -> Seq<u64> {
    ranges.map_values(|r: Range| place_key(r.start))
}

/// Whether `sorted` holds `ranges` in the order of their starts; ranges with the same start
/// keep their order.
pub open spec fn is_sorted_by_start(ranges: Seq<Range>, sorted: Seq<Range>) -> bool {
    exists|order: Seq<usize>| #[trigger]
        is_stable_order(start_keys(ranges), order) && sorted == reordered(ranges, order)
}

/// The place that token `i` is relative to: the start of the range before it, or of the document.
pub open spec fn place_before(ranges: Seq<Range>, i: int) -> Position {
    if i == 0 {
        Position { line: 0, character: 0 }
    } else {
        ranges[i - 1].start
    }
}

/// The difference of `a` and `b`, modulo 2^32.
pub open spec fn wrapped_difference(a: u32, b: u32) -> u32 {
    if a >= b {
        (a - b) as u32
    } else {
        (a - b + 0x1_0000_0000) as u32
    }
}

/// The token of range `i`.
pub open spec fn token_of(ranges: Seq<Range>, i: int, token_type: u32) -> SemanticToken {
    let start = ranges[i].start;
    let before = place_before(ranges, i);
    SemanticToken {
        delta_line: (start.line - before.line) as u32,
        delta_start: if start.line == before.line {
            (start.character - before.character) as u32
        } else {
            start.character
        },
        length: wrapped_difference(ranges[i].end.character, start.character),
        token_type,
        token_modifiers_bitset: 0,
    }
}

/// The tokens of ranges that are sorted by their starts.
pub open spec fn tokens_of(ranges: Seq<Range>, token_type: u32) -> Seq<SemanticToken> {
    Seq::new(ranges.len(), |i: int| token_of(ranges, i, token_type))
}

pub fn key_of_place(p: Position) -> (r: u64)
    ensures
        r == place_key(p),
{
    p.line as u64 * 0x1_0000_0000 + p.character as u64
}

pub proof fn lemma_place_key(a: Position, b: Position)
    ensures
        place_key(a) <= place_key(b) <==> not_behind(a, b),
        place_key(a) == place_key(b) <==> a == b,
{
}

/// Sorts ranges by their starts.
pub fn sort_by_start(ranges: &Vec<Range>) -> (r: Vec<Range>)
    ensures
        is_sorted_by_start(ranges@, r@),
{
    let mut keys: Vec<u64> = Vec::new();
    let mut i: usize = 0;
    while i < ranges.len()
        invariant
            i <= ranges.len(),
            keys@ == start_keys(ranges@).take(i as int),
        decreases ranges.len() - i,
    {
        proof {
            let all = start_keys(ranges@);
            assert(all.take(i + 1) =~= all.take(i as int).push(all[i as int]));
        }
        keys.push(key_of_place(ranges[i].start));
        i += 1;
    }
    proof {
        assert(keys@ =~= start_keys(ranges@));
    }
    let order = sort_order(&keys);
    let mut r: Vec<Range> = Vec::new();
    let mut k: usize = 0;
    while k < order.len()
        invariant
            k <= order.len(),
            is_stable_order(start_keys(ranges@), order@),
            r@ == reordered(ranges@, order@).take(k as int),
        decreases order.len() - k,
    {
        proof {
            let all = reordered(ranges@, order@);
            assert(all.take(k + 1) =~= all.take(k as int).push(all[k as int]));
        }
        r.push(ranges[order[k]]);
        k += 1;
    }
    proof {
        assert(r@ =~= reordered(ranges@, order@));
    }
    r
}

/// In sorted ranges no start is behind a later one.
pub proof fn law_sorted_starts(ranges: Seq<Range>, sorted: Seq<Range>, i: int, j: int)
    requires
        is_sorted_by_start(ranges, sorted),
        0 <= i <= j < sorted.len(),
    ensures
        sorted.len() == ranges.len(),
        not_behind(sorted[i].start, sorted[j].start),
{
    let keys = start_keys(ranges);
    let order = choose|order: Seq<usize>| #[trigger]
        is_stable_order(keys, order) && sorted == reordered(ranges, order);
    lemma_place_key(sorted[i].start, sorted[j].start);
    assert(keys[order[i] as int] == place_key(sorted[i].start));
    assert(keys[order[j] as int] == place_key(sorted[j].start));
    if i < j {
        assert(comes_before(keys, order[i] as int, order[j] as int));
    }
}

/// Ranges whose starts are in order stay as they are.
pub proof fn law_sorted_ranges_stay(ranges: Seq<Range>, sorted: Seq<Range>)
    requires
        is_sorted_by_start(ranges, sorted),
        forall|i: int, j: int|
            0 <= i <= j < ranges.len() ==> not_behind(
                (#[trigger] ranges[i]).start,
                (#[trigger] ranges[j]).start,
            ),
    ensures
        sorted == ranges,
{
    let keys = start_keys(ranges);
    let order = choose|order: Seq<usize>| #[trigger]
        is_stable_order(keys, order) && sorted == reordered(ranges, order);
    assert forall|i: int, j: int| 0 <= i <= j < keys.len() implies #[trigger] keys[i]
        <= #[trigger] keys[j] by {
        assert(not_behind(ranges[i].start, ranges[j].start));
        lemma_place_key(ranges[i].start, ranges[j].start);
    }
    law_sorted_keys_stay(keys, order);
    assert(sorted =~= ranges);
}

/// Sorting neither loses a range nor makes one up.
pub proof fn law_sorted_keeps_ranges(ranges: Seq<Range>, sorted: Seq<Range>, range: Range)
    requires
        is_sorted_by_start(ranges, sorted),
    ensures
        sorted.contains(range) <==> ranges.contains(range),
{
    let keys = start_keys(ranges);
    let order = choose|order: Seq<usize>| #[trigger]
        is_stable_order(keys, order) && sorted == reordered(ranges, order);
    law_reordered_keeps_items(keys, order, ranges, range);
}

/// The tokens of ranges, in the order of their starts.
pub fn semantic_tokens_of(ranges: &Vec<Range>, token_type: u32) -> (r: Vec<SemanticToken>)
    ensures
        exists|sorted: Seq<Range>| #[trigger]
            is_sorted_by_start(ranges@, sorted) && r@ == tokens_of(sorted, token_type),
{
    let sorted = sort_by_start(ranges);
    let mut data: Vec<SemanticToken> = Vec::with_capacity(sorted.len());
    let mut prev_line: u32 = 0;
    let mut prev_char: u32 = 0;
    let mut i: usize = 0;
    while i < sorted.len()
        invariant
            i <= sorted.len(),
            is_sorted_by_start(ranges@, sorted@),
            (Position { line: prev_line, character: prev_char }) == place_before(
                sorted@,
                i as int,
            ),
            data@ == tokens_of(sorted@, token_type).take(i as int),
        decreases sorted.len() - i,
    {
        let range = sorted[i];
        proof {
            if i > 0 {
                law_sorted_starts(ranges@, sorted@, i - 1, i as int);
            }
            let all = tokens_of(sorted@, token_type);
            assert(all.take(i + 1) =~= all.take(i as int).push(all[i as int]));
        }
        let delta_line: u32 = range.start.line - prev_line;
        let delta_start: u32 = if delta_line == 0 {
            range.start.character - prev_char
        } else {
            range.start.character
        };
        let length: u32 = range.end.character.wrapping_sub(range.start.character);
        data.push(
            SemanticToken {
                delta_line,
                delta_start,
                length,
                token_type,
                token_modifiers_bitset: 0,
            },
        );
        prev_line = range.start.line;
        prev_char = range.start.character;
        i += 1;
    }
    proof {
        assert(data@ =~= tokens_of(sorted@, token_type));
    }
    data
}

/// The place at which a client that reads tokens puts token `i`: relative to the place of the
/// token before it, on the same line where the lines do not differ.
pub open spec fn decoded_place(tokens: Seq<SemanticToken>, i: int) -> (int, int)
    decreases i + 1,
{
    if i < 0 || i >= tokens.len() {
        (0, 0)
    } else {
        let before = decoded_place(tokens, i - 1);
        if tokens[i].delta_line == 0 {
            (before.0, before.1 + tokens[i].delta_start)
        } else {
            (before.0 + tokens[i].delta_line, tokens[i].delta_start as int)
        }
    }
}

/// A client that reads the tokens finds each range where it is.
pub proof fn law_tokens_decode(
    ranges: Seq<Range>,
    sorted: Seq<Range>,
    token_type: u32,
    i: int,
)
    requires
        is_sorted_by_start(ranges, sorted),
        0 <= i < sorted.len(),
    ensures
        decoded_place(tokens_of(sorted, token_type), i) == (
            sorted[i].start.line as int,
            sorted[i].start.character as int,
        ),
    decreases i,
{
    let tokens = tokens_of(sorted, token_type);
    if i > 0 {
        law_tokens_decode(ranges, sorted, token_type, i - 1);
        law_sorted_starts(ranges, sorted, i - 1, i);
    } else {
        assert(decoded_place(tokens, -1) == (0int, 0int));
    }
    assert(tokens[i] == token_of(sorted, i, token_type));
}

/// There is a token for each range, and it tells how long the range is and which type it is given;
/// it starts on the line of the range before it if the lines do not differ, and so many characters
/// behind its start.
pub proof fn law_token_tells_range(
    ranges: Seq<Range>,
    sorted: Seq<Range>,
    token_type: u32,
    i: int,
)
    requires
        is_sorted_by_start(ranges, sorted),
        0 <= i < sorted.len(),
    ensures
        tokens_of(sorted, token_type).len() == ranges.len(),
        ({
            let token = tokens_of(sorted, token_type)[i];
            let start = sorted[i].start;
            let end = sorted[i].end;
            &&& end.character >= start.character ==> token.length == end.character - start.character
            &&& end.character < start.character ==> token.length == 0x1_0000_0000 + end.character
                - start.character
            &&& token.token_type == token_type
            &&& token.token_modifiers_bitset == 0
            &&& i == 0 ==> token.delta_line == start.line && token.delta_start == start.character
            &&& i > 0 ==> {
                let before = sorted[i - 1].start;
                &&& token.delta_line == start.line - before.line
                &&& token.delta_start == start.character - (if start.line == before.line {
                    before.character as int
                } else {
                    0
                })
            }
        }),
{
    if i > 0 {
        law_sorted_starts(ranges, sorted, i - 1, i);
    }
    law_sorted_starts(ranges, sorted, i, i);
}

} // verus!
