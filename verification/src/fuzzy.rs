//! Fuzzy search among the names of symbols.

use crate::search::{chars_of, starts_with};
use crate::sort::{
    comes_before, is_stable_order, law_order_is_permutation, law_order_is_unique, reordered,
    sort_order,
};
use crate::symbols::{symbol_views, Symbol, SymbolView};
use crate::text::{byte_len, lemma_chars_in_bytes, utf8_len};
use nucleo_matcher::pattern::{CaseMatching, Normalization, Pattern};
use nucleo_matcher::{Matcher, Utf32Str};
use vstd::prelude::*;
use vstd::utf8::is_ascii_chars;

verus! {

/// The most results of a search.
pub const MAX_RESULTS: usize = 100;

/// What a name gains that starts with the text that is searched for.
pub const PREFIX_BONUS: u32 = 1000;

/// How well a name matches a pattern, as `Pattern::score` has it; `None` where it does not.
pub uninterp spec fn fuzzy_score_of(query: Seq<char>, name: Seq<char>) -> Option<u32>;

/// Whether character `i` of a query separates words: a blank that no backslash escapes.
pub open spec fn is_separator(query: Seq<char>, i: int) -> bool {
    query[i] == ' ' && !(i > 0 && query[i - 1] == '\\')
}

/// The most characters that the words of a query can stand for, word by word. A backslash may
/// stand for two.
pub open spec fn word_sizes(query: Seq<char>) -> Seq<nat>
    decreases query.len(),
{
    if query.len() == 0 {
        seq![0nat]
    } else {
        let before = word_sizes(query.drop_last());
        if is_separator(query, query.len() - 1) {
            before.push(0)
        } else {
            before.update(
                before.len() - 1,
                before.last() + if query.last() == '\\' {
                    2nat
                } else {
                    1
                },
            )
        }
    }
}

/// The most that a word can score in a name of `name_len` bytes: 26 for each character that
/// matches, and 10 more for the first.
pub open spec fn most_points(size: nat, name_len: nat) -> nat {
    if size == 0 {
        0
    } else if size <= name_len {
        26 * size + 10
    } else {
        26 * name_len + 10
    }
}

/// The most that words can score together.
pub open spec fn most_points_of_all(sizes: Seq<nat>, name_len: nat) -> nat
    decreases sizes.len(),
{
    if sizes.len() == 0 {
        0
    } else {
        most_points_of_all(sizes.drop_last(), name_len) + most_points(sizes.last(), name_len)
    }
}

/// Whether words can be scored in a name of `name_len` bytes: the name can be indexed by 32 bits,
/// no word can score more than 16 bits hold, and all together not more than 32 bits.
pub open spec fn words_fit(sizes: Seq<nat>, name_len: nat) -> bool {
    &&& name_len <= u32::MAX
    &&& forall|i: int|
        0 <= i < sizes.len() ==> most_points(#[trigger] sizes[i], name_len) <= u16::MAX
    &&& most_points_of_all(sizes, name_len) <= u32::MAX
}

/// Whether a letter of a query may be one that stands for another when accents are not told
/// apart: those of the Latin script beyond ASCII are, and a few beside them.
pub open spec fn may_have_accent(c: char) -> bool {
    let code = c as u32;
    ||| 0xc0 <= code <= 0x36f
    ||| 0x1d00 <= code <= 0x1ef1
    ||| 0x2071 <= code <= 0x2184
}

/// The code of the letter that a small letter is folded to, of the small letters that are.
pub open spec fn small_fold(c: char) -> Option<u32> {
    let code = c as u32;
    if code == 0xb5 {
        Some(0x3bcu32)
    } else if code == 0x17f {
        Some(0x73)
    } else if code == 0x345 || code == 0x1fbe {
        Some(0x3b9)
    } else if code == 0x3c2 {
        Some(0x3c3)
    } else if code == 0x3d0 {
        Some(0x3b2)
    } else if code == 0x3d1 {
        Some(0x3b8)
    } else if code == 0x3d5 {
        Some(0x3c6)
    } else if code == 0x3d6 {
        Some(0x3c0)
    } else if code == 0x3f0 {
        Some(0x3ba)
    } else if code == 0x3f1 {
        Some(0x3c1)
    } else if code == 0x3f5 {
        Some(0x3b5)
    } else if 0x13f8 <= code <= 0x13fd {
        Some((code - 0x8) as u32)
    } else if code == 0x1c80 {
        Some(0x432)
    } else if code == 0x1c81 {
        Some(0x434)
    } else if code == 0x1c82 {
        Some(0x43e)
    } else if code == 0x1c83 {
        Some(0x441)
    } else if code == 0x1c84 || code == 0x1c85 {
        Some(0x442)
    } else if code == 0x1c86 {
        Some(0x44a)
    } else if code == 0x1c87 {
        Some(0x463)
    } else if code == 0x1c88 {
        Some(0xa64b)
    } else if code == 0x1e9b {
        Some(0x1e61)
    } else if 0xab70 <= code <= 0xabbf {
        Some((code - 0x97d0) as u32)
    } else {
        None
    }
}

/// Whether a text has a letter that may have an accent.
pub open spec fn has_accent(query: Seq<char>) -> bool {
    exists|k: int| 0 <= k < query.len() && may_have_accent(#[trigger] query[k])
}

/// Whether a text holds what a small letter is folded to.
pub open spec fn holds_fold(query: Seq<char>, c: char) -> bool {
    exists|k: int|
        0 <= k < query.len() && small_fold(c) == Some((#[trigger] query[k]) as u32)
}

/// Whether the case of the letters of a name is clear in a search: no small letter of the name is
/// folded to one of the query while the query has letters with an accent, which are then told
/// apart.
pub open spec fn case_is_clear(query: Seq<char>, name: Seq<char>) -> bool {
    has_accent(query) ==> forall|i: int|
        0 <= i < name.len() ==> !holds_fold(query, #[trigger] name[i])
}

/// Whether a query can be scored in a name.
pub open spec fn can_be_scored(query: Seq<char>, name: Seq<char>) -> bool {
    &&& words_fit(word_sizes(query), utf8_len(name))
    &&& case_is_clear(query, name)
}

/// `nucleo_matcher::pattern::Pattern::score` on a pattern that `Pattern::parse` makes of `query`,
/// with smart case and smart normalization, and a matcher of the default configuration. It panics
/// for a name of more than `u32::MAX` characters. It adds up the points of a word in 16 bits and
/// those of all words in 32, and panics beyond that where overflow is checked. Where assertions
/// for debugging are checked, it may panic for a name whose case is not clear: for a word with an
/// accent it looks for the first letter with small letters folded, and then again without.
#[verifier::external_body]
pub(crate) fn fuzzy_score(query: &str, name: &str) -> (r: Option<u32>)
    requires
        can_be_scored(query@, name@),
    ensures
        r == fuzzy_score_of(query@, name@),
{
    let pattern = Pattern::parse(query, CaseMatching::Smart, Normalization::Smart);
    let mut buf = Vec::new();
    pattern.score(Utf32Str::new(name, &mut buf), &mut Matcher::default())
}

/// `a + b`, modulo 2^32.
pub open spec fn wrapped_sum(a: u32, b: u32) -> u32 {
    if a + b <= u32::MAX {
        (a + b) as u32
    } else {
        (a + b - 0x1_0000_0000) as u32
    }
}

/// The rank of a name: its score, and the bonus if it starts with the text searched for.
pub open spec fn rank_of(score: Option<u32>, query: Seq<char>, name: Seq<char>) -> Option<u32> {
    match score {
        None => None,
        Some(score) => Some(
            if query.is_prefix_of(name) {
                wrapped_sum(score, PREFIX_BONUS)
            } else {
                score
            },
        ),
    }
}

/// The rank of a name that has a score.
pub fn rank(score: Option<u32>, query: &str, name: &str) -> (r: Option<u32>)
    ensures
        r == rank_of(score, query@, name@),
{
    match score {
        None => None,
        Some(score) => Some(
            if starts_with(name, query) {
                score.wrapping_add(PREFIX_BONUS)
            } else {
                score
            },
        ),
    }
}

/// Whether all names can be scored.
pub open spec fn all_can_be_scored(query: Seq<char>, symbols: Seq<SymbolView>) -> bool {
    forall|i: int| 0 <= i < symbols.len() ==> can_be_scored(query, (#[trigger] symbols[i]).name)
}

/// The scores of the names of symbols.
pub open spec fn scores_of(query: Seq<char>, symbols: Seq<SymbolView>) -> Seq<Option<u32>> {
    symbols.map_values(|s: SymbolView| fuzzy_score_of(query, s.name))
}

/// The sizes as the specification has them.
pub open spec fn sizes_view(sizes: Seq<u128>) -> Seq<nat> {
    sizes.map_values(|size: u128| size as nat)
}

/// The most characters that the words of a query can stand for.
fn find_word_sizes(query: &str) -> (r: Vec<u128>)
    ensures
        sizes_view(r@) == word_sizes(query@),
{
    let total: usize = byte_len(query);
    let chars = chars_of(query);
    let mut r: Vec<u128> = Vec::new();
    r.push(0);
    let mut i: usize = 0;
    proof {
        lemma_chars_in_bytes(query@);
        assert(query@.take(0) =~= Seq::<char>::empty());
        assert(sizes_view(r@) =~= word_sizes(query@.take(0)));
    }
    while i < chars.len()
        invariant
            chars@ == query@,
            i <= chars.len() <= total,
            r@.len() > 0,
            r@.last() <= 2 * i,
            sizes_view(r@) == word_sizes(query@.take(i as int)),
        decreases chars.len() - i,
    {
        let ghost before = sizes_view(r@);
        proof {
            assert(query@.take(i + 1).drop_last() =~= query@.take(i as int));
            assert(is_separator(query@.take(i + 1), i as int) == is_separator(query@, i as int));
            assert(before.last() == r@.last());
        }
        let c = chars[i];
        if c == ' ' && !(i > 0 && chars[i - 1] == '\\') {
            r.push(0);
            proof {
                assert(sizes_view(r@) =~= before.push(0));
            }
        } else {
            let last: usize = r.len() - 1;
            let size: u128 = r[last] + if c == '\\' {
                2
            } else {
                1
            };
            r.set(last, size);
            proof {
                assert(sizes_view(r@) =~= before.update(last as int, size as nat));
            }
        }
        i += 1;
    }
    proof {
        assert(query@.take(i as int) =~= query@);
    }
    r
}

/// Whether words of these sizes can be scored in a name.
fn check_words_fit(sizes: &Vec<u128>, name_len: usize) -> (r: bool)
    ensures
        r == words_fit(sizes_view(sizes@), name_len as nat),
{
    let ghost views = sizes_view(sizes@);
    if name_len as u64 > u32::MAX as u64 {
        return false;
    }
    let len: u128 = name_len as u128;
    let mut sum: u128 = 0;
    let mut i: usize = 0;
    proof {
        assert(views.take(0) =~= Seq::<nat>::empty());
    }
    while i < sizes.len()
        invariant
            i <= sizes.len(),
            views == sizes_view(sizes@),
            len == name_len <= u32::MAX,
            sum == most_points_of_all(views.take(i as int), name_len as nat),
            sum <= i * u16::MAX,
            forall|j: int|
                0 <= j < i ==> most_points(#[trigger] views[j], name_len as nat) <= u16::MAX,
        decreases sizes.len() - i,
    {
        let size: u128 = sizes[i];
        proof {
            assert(views[i as int] == size);
            assert(views.take(i + 1).drop_last() =~= views.take(i as int));
            assert(views.take(i + 1).last() == views[i as int]);
        }
        let points: u128 = if size == 0 {
            0
        } else if size <= len {
            26 * size + 10
        } else {
            26 * len + 10
        };
        if points > u16::MAX as u128 {
            proof {
                assert(most_points(views[i as int], name_len as nat) == points);
            }
            return false;
        }
        sum = sum + points;
        i += 1;
    }
    proof {
        assert(views.take(i as int) =~= views);
    }
    sum <= u32::MAX as u128
}

fn check_accent(c: char) -> (r: bool)
    ensures
        r == may_have_accent(c),
{
    let code: u32 = c as u32;
    (0xc0 <= code && code <= 0x36f) || (0x1d00 <= code && code <= 0x1ef1) || (0x2071 <= code
        && code <= 0x2184)
}

fn find_small_fold(c: char) -> (r: Option<u32>)
    ensures
        r == small_fold(c),
{
    let code: u32 = c as u32;
    match code {
        0xb5 => Some(0x3bc),
        0x17f => Some(0x73),
        0x345 | 0x1fbe => Some(0x3b9),
        0x3c2 => Some(0x3c3),
        0x3d0 => Some(0x3b2),
        0x3d1 => Some(0x3b8),
        0x3d5 => Some(0x3c6),
        0x3d6 => Some(0x3c0),
        0x3f0 => Some(0x3ba),
        0x3f1 => Some(0x3c1),
        0x3f5 => Some(0x3b5),
        0x1c80 => Some(0x432),
        0x1c81 => Some(0x434),
        0x1c82 => Some(0x43e),
        0x1c83 => Some(0x441),
        0x1c84 | 0x1c85 => Some(0x442),
        0x1c86 => Some(0x44a),
        0x1c87 => Some(0x463),
        0x1c88 => Some(0xa64b),
        0x1e9b => Some(0x1e61),
        _ => if 0x13f8 <= code && code <= 0x13fd {
            Some(code - 0x8)
        } else if 0xab70 <= code && code <= 0xabbf {
            Some(code - 0x97d0)
        } else {
            None
        },
    }
}

/// Whether a text has a letter that may have an accent.
fn find_accent(query: &Vec<char>) -> (r: bool)
    ensures
        r == has_accent(query@),
{
    let mut k: usize = 0;
    while k < query.len()
        invariant
            k <= query.len(),
            forall|j: int| 0 <= j < k ==> !may_have_accent(#[trigger] query@[j]),
        decreases query.len() - k,
    {
        if check_accent(query[k]) {
            return true;
        }
        k += 1;
    }
    false
}

/// Whether a text holds what a small letter is folded to.
fn find_fold(query: &Vec<char>, c: char) -> (r: bool)
    ensures
        r == holds_fold(query@, c),
{
    let fold: u32 = match find_small_fold(c) {
        Some(fold) => fold,
        None => {
            return false;
        },
    };
    let mut k: usize = 0;
    while k < query.len()
        invariant
            k <= query.len(),
            small_fold(c) == Some(fold),
            forall|j: int|
                0 <= j < k ==> small_fold(c) != Some((#[trigger] query@[j]) as u32),
        decreases query.len() - k,
    {
        if query[k] as u32 == fold {
            return true;
        }
        k += 1;
    }
    false
}

/// Whether the case of the letters of a name is clear in a search.
fn check_case(query: &Vec<char>, name: &str) -> (r: bool)
    requires
        has_accent(query@),
    ensures
        r == case_is_clear(query@, name@),
{
    let chars = chars_of(name);
    let mut i: usize = 0;
    while i < chars.len()
        invariant
            i <= chars.len(),
            chars@ == name@,
            has_accent(query@),
            forall|j: int| 0 <= j < i ==> !holds_fold(query@, #[trigger] name@[j]),
        decreases chars.len() - i,
    {
        if find_fold(query, chars[i]) {
            return false;
        }
        i += 1;
    }
    true
}

/// Whether a query can be scored in the names of all symbols.
pub fn can_score(query: &str, symbols: &Vec<Symbol>) -> (r: bool)
    ensures
        r == all_can_be_scored(query@, symbol_views(symbols@)),
{
    let ghost views = symbol_views(symbols@);
    let sizes = find_word_sizes(query);
    let chars = chars_of(query);
    let accent = find_accent(&chars);
    let mut i: usize = 0;
    while i < symbols.len()
        invariant
            i <= symbols.len(),
            views == symbol_views(symbols@),
            sizes_view(sizes@) == word_sizes(query@),
            chars@ == query@,
            accent == has_accent(query@),
            forall|j: int| 0 <= j < i ==> can_be_scored(query@, (#[trigger] views[j]).name),
        decreases symbols.len() - i,
    {
        let name = symbols[i].name.as_str();
        let name_len: usize = byte_len(name);
        proof {
            assert(views[i as int].name == name@);
        }
        if !check_words_fit(&sizes, name_len) || (accent && !check_case(&chars, name)) {
            return false;
        }
        i += 1;
    }
    true
}

/// The scores of the names of symbols.
pub fn scores(query: &str, symbols: &Vec<Symbol>) -> (r: Vec<Option<u32>>)
    requires
        all_can_be_scored(query@, symbol_views(symbols@)),
    ensures
        r@ == scores_of(query@, symbol_views(symbols@)),
{
    let ghost views = symbol_views(symbols@);
    let mut r: Vec<Option<u32>> = Vec::with_capacity(symbols.len());
    let mut i: usize = 0;
    while i < symbols.len()
        invariant
            i <= symbols.len(),
            views == symbol_views(symbols@),
            all_can_be_scored(query@, views),
            r@ == scores_of(query@, views).take(i as int),
        decreases symbols.len() - i,
    {
        let name = symbols[i].name.as_str();
        proof {
            let all = scores_of(query@, views);
            assert(all.take(i + 1) =~= all.take(i as int).push(all[i as int]));
            assert(views[i as int].name == name@);
        }
        r.push(fuzzy_score(query, name));
        i += 1;
    }
    proof {
        assert(r@ =~= scores_of(query@, views));
    }
    r
}

/// The indices of the items that have a rank, in ascending order.
pub open spec fn ranked_items(ranks: Seq<Option<u32>>) -> Seq<usize>
    decreases ranks.len(),
{
    if ranks.len() == 0 {
        seq![]
    } else if ranks.last() is Some {
        ranked_items(ranks.drop_last()).push((ranks.len() - 1) as usize)
    } else {
        ranked_items(ranks.drop_last())
    }
}

/// Keys that put the highest rank first.
pub open spec fn rank_keys(ranks: Seq<Option<u32>>, items: Seq<usize>) -> Seq<u64> {
    items.map_values(|i: usize| (u32::MAX - ranks[i as int]->0) as u64)
}

/// Whether `best` are the indices of the best items, the best first, and no more than the
/// greatest number of results; of equal items the one that comes first is the better.
pub open spec fn are_best(ranks: Seq<Option<u32>>, best: Seq<usize>) -> bool {
    let items = ranked_items(ranks);
    exists|order: Seq<usize>| #[trigger]
        is_stable_order(rank_keys(ranks, items), order) && best == reordered(items, order).take(
            if items.len() <= MAX_RESULTS {
                items.len() as int
            } else {
                MAX_RESULTS as int
            },
        )
}

proof fn lemma_ranked_items(ranks: Seq<Option<u32>>)
    requires
        ranks.len() <= usize::MAX,
    ensures
        forall|k: int|
            0 <= k < ranked_items(ranks).len() ==> (#[trigger] ranked_items(ranks)[k]) < ranks.len()
                && ranks[ranked_items(ranks)[k] as int] is Some,
        forall|i: usize|
            i < ranks.len() && ranks[i as int] is Some ==> #[trigger] ranked_items(ranks).contains(
                i,
            ),
    decreases ranks.len(),
{
    if ranks.len() > 0 {
        lemma_ranked_items(ranks.drop_last());
        let before = ranked_items(ranks.drop_last());
        let all = ranked_items(ranks);
        assert forall|i: usize|
            i < ranks.len() && ranks[i as int] is Some implies #[trigger] all.contains(i) by {
            if i < ranks.len() - 1 {
                assert(ranks.drop_last()[i as int] is Some);
                assert(before.contains(i));
                let k = choose|k: int| 0 <= k < before.len() && before[k] == i;
                assert(all[k] == i);
            } else {
                assert(all.last() == i);
            }
        }
        assert forall|k: int| 0 <= k < all.len() implies (#[trigger] all[k]) < ranks.len()
            && ranks[all[k] as int] is Some by {
            if k < before.len() {
                assert(all[k] == before[k]);
            }
        }
    }
}

/// The indices of the best items, the best first.
pub fn best(ranks: &Vec<Option<u32>>) -> (r: Vec<usize>)
    ensures
        are_best(ranks@, r@),
{
    let mut items: Vec<usize> = Vec::new();
    let mut keys: Vec<u64> = Vec::new();
    let mut i: usize = 0;
    proof {
        assert(ranks@.take(0) =~= Seq::<Option<u32>>::empty());
    }
    while i < ranks.len()
        invariant
            i <= ranks.len(),
            items@ == ranked_items(ranks@.take(i as int)),
            keys@ == rank_keys(ranks@, items@),
        decreases ranks.len() - i,
    {
        proof {
            assert(ranks@.take(i + 1).drop_last() =~= ranks@.take(i as int));
        }
        if let Some(rank) = ranks[i] {
            items.push(i);
            keys.push((u32::MAX - rank) as u64);
            proof {
                assert(keys@ =~= rank_keys(ranks@, items@));
            }
        }
        i += 1;
    }
    proof {
        assert(ranks@.take(i as int) =~= ranks@);
    }
    let order = sort_order(&keys);
    let n: usize = if items.len() <= MAX_RESULTS {
        items.len()
    } else {
        MAX_RESULTS
    };
    let mut r: Vec<usize> = Vec::with_capacity(n);
    let mut k: usize = 0;
    while k < n
        invariant
            k <= n <= items@.len(),
            is_stable_order(keys@, order@),
            keys@.len() == items@.len(),
            r@ == reordered(items@, order@).take(k as int),
        decreases n - k,
    {
        proof {
            let all = reordered(items@, order@);
            assert(all.take(k + 1) =~= all.take(k as int).push(all[k as int]));
        }
        r.push(items[order[k]]);
        k += 1;
    }
    r
}

/// Results have a rank, none ranks below a later one, and there are not too many.
pub proof fn law_best_first(ranks: Seq<Option<u32>>, best: Seq<usize>)
    requires
        ranks.len() <= usize::MAX,
        are_best(ranks, best),
    ensures
        best.len() <= MAX_RESULTS,
        forall|i: int|
            0 <= i < best.len() ==> (#[trigger] best[i]) < ranks.len()
                && ranks[best[i] as int] is Some,
        forall|i: int, j: int|
            0 <= i <= j < best.len() ==> ranks[(#[trigger] best[i]) as int]->0 >= ranks[(
            #[trigger] best[j]) as int]->0,
{
    let items = ranked_items(ranks);
    let keys = rank_keys(ranks, items);
    lemma_ranked_items(ranks);
    let order = choose|order: Seq<usize>| #[trigger]
        is_stable_order(keys, order) && best == reordered(items, order).take(
            if items.len() <= MAX_RESULTS {
                items.len() as int
            } else {
                MAX_RESULTS as int
            },
        );
    assert forall|i: int| 0 <= i < best.len() implies best[i] == items[order[i] as int] by {}
    assert forall|i: int, j: int| 0 <= i <= j < best.len() implies ranks[(
    #[trigger] best[i]) as int]->0 >= ranks[(#[trigger] best[j]) as int]->0 by {
        assert(keys[order[i] as int] == u32::MAX - ranks[best[i] as int]->0);
        assert(keys[order[j] as int] == u32::MAX - ranks[best[j] as int]->0);
        if i < j {
            assert(comes_before(keys, order[i] as int, order[j] as int));
        }
    }
}

/// An item that has a rank is left out only where there are as many results as there may be,
/// none of which ranks below it.
pub proof fn law_none_better_left_out(ranks: Seq<Option<u32>>, best: Seq<usize>, item: usize)
    requires
        ranks.len() <= usize::MAX,
        are_best(ranks, best),
        item < ranks.len(),
        ranks[item as int] is Some,
        !best.contains(item),
    ensures
        best.len() == MAX_RESULTS,
        forall|i: int|
            0 <= i < best.len() ==> ranks[(#[trigger] best[i]) as int]->0 >= ranks[item as int]->0,
{
    let items = ranked_items(ranks);
    let keys = rank_keys(ranks, items);
    lemma_ranked_items(ranks);
    let n = if items.len() <= MAX_RESULTS {
        items.len() as int
    } else {
        MAX_RESULTS as int
    };
    let order = choose|order: Seq<usize>| #[trigger]
        is_stable_order(keys, order) && best == reordered(items, order).take(n);
    law_order_is_permutation(keys, order);
    assert(items.contains(item));
    let k = choose|k: int| 0 <= k < items.len() && items[k] == item;
    lemma_ranked_items_len(ranks);
    assert(order.contains(k as usize));
    let p = choose|p: int| 0 <= p < order.len() && order[p] == k as usize;
    if p < n {
        assert(best[p] == item);
    }
    assert forall|i: int| 0 <= i < best.len() implies ranks[(#[trigger] best[i]) as int]->0
        >= ranks[item as int]->0 by {
        assert(comes_before(keys, order[i] as int, order[p] as int));
        assert(best[i] == items[order[i] as int]);
        assert(keys[order[i] as int] == u32::MAX - ranks[best[i] as int]->0);
        assert(keys[k] == u32::MAX - ranks[item as int]->0);
    }
}

/// The ranks alone determine the results.
pub proof fn law_best_is_unique(ranks: Seq<Option<u32>>, a: Seq<usize>, b: Seq<usize>)
    requires
        are_best(ranks, a),
        are_best(ranks, b),
    ensures
        a == b,
{
    let items = ranked_items(ranks);
    let keys = rank_keys(ranks, items);
    let n = if items.len() <= MAX_RESULTS {
        items.len() as int
    } else {
        MAX_RESULTS as int
    };
    let order_a = choose|order: Seq<usize>| #[trigger]
        is_stable_order(keys, order) && a == reordered(items, order).take(n);
    let order_b = choose|order: Seq<usize>| #[trigger]
        is_stable_order(keys, order) && b == reordered(items, order).take(n);
    law_order_is_unique(keys, order_a, order_b);
}

proof fn lemma_ranked_items_len(ranks: Seq<Option<u32>>)
    ensures
        ranked_items(ranks).len() <= ranks.len(),
    decreases ranks.len(),
{
    if ranks.len() > 0 {
        lemma_ranked_items_len(ranks.drop_last());
    }
}

/// No item is among the results twice.
pub proof fn law_best_are_different(ranks: Seq<Option<u32>>, best: Seq<usize>)
    requires
        ranks.len() <= usize::MAX,
        are_best(ranks, best),
    ensures
        best.no_duplicates(),
{
    let items = ranked_items(ranks);
    let keys = rank_keys(ranks, items);
    let n = if items.len() <= MAX_RESULTS {
        items.len() as int
    } else {
        MAX_RESULTS as int
    };
    let order = choose|order: Seq<usize>| #[trigger]
        is_stable_order(keys, order) && best == reordered(items, order).take(n);
    law_order_is_permutation(keys, order);
    lemma_ranked_items_ascend(ranks);
    assert forall|i: int, j: int|
        0 <= i < best.len() && 0 <= j < best.len() && i != j implies best[i] != best[j] by {
        assert(best[i] == items[order[i] as int] && best[j] == items[order[j] as int]);
        assert(order[i] != order[j]);
        if order[i] < order[j] {
            assert(items[order[i] as int] < items[order[j] as int]);
        } else {
            assert(items[order[j] as int] < items[order[i] as int]);
        }
    }
}

proof fn lemma_ranked_items_ascend(ranks: Seq<Option<u32>>)
    requires
        ranks.len() <= usize::MAX,
    ensures
        forall|i: int, j: int|
            0 <= i < j < ranked_items(ranks).len() ==> #[trigger] ranked_items(ranks)[i]
                < #[trigger] ranked_items(ranks)[j],
    decreases ranks.len(),
{
    if ranks.len() > 0 {
        lemma_ranked_items_ascend(ranks.drop_last());
        lemma_ranked_items(ranks.drop_last());
        let before = ranked_items(ranks.drop_last());
        let all = ranked_items(ranks);
        assert forall|i: int, j: int| 0 <= i < j < all.len() implies #[trigger] all[i]
            < #[trigger] all[j] by {
            assert(all[i] == before[i]);
            if j < before.len() {
                assert(all[j] == before[j]);
            }
        }
    }
}

proof fn lemma_word_sizes(query: Seq<char>)
    ensures
        0 < word_sizes(query).len() <= query.len() + 1,
        forall|i: int|
            0 <= i < word_sizes(query).len() ==> #[trigger] word_sizes(query)[i] <= 2
                * query.len(),
    decreases query.len(),
{
    if query.len() > 0 {
        lemma_word_sizes(query.drop_last());
        let before = word_sizes(query.drop_last());
        let last = before.len() - 1;
        assert(before.last() == before[last]);
        assert forall|i: int| 0 <= i < word_sizes(query).len() implies #[trigger] word_sizes(
            query,
        )[i] <= 2 * query.len() by {
            if i < last {
                assert(before[i] <= 2 * query.drop_last().len());
            }
        }
    }
}

proof fn lemma_most_points(sizes: Seq<nat>, name_len: nat, most: nat)
    requires
        forall|i: int| 0 <= i < sizes.len() ==> most_points(#[trigger] sizes[i], name_len) <= most,
    ensures
        most_points_of_all(sizes, name_len) <= most * sizes.len(),
    decreases sizes.len(),
{
    if sizes.len() > 0 {
        let rest = sizes.drop_last();
        assert forall|i: int| 0 <= i < rest.len() implies most_points(#[trigger] rest[i], name_len)
            <= most by {
            assert(sizes[i] == rest[i]);
        }
        lemma_most_points(rest, name_len, most);
        assert(most_points(sizes[sizes.len() - 1], name_len) <= most);
        assert(most * sizes.len() == most * rest.len() + most) by (nonlinear_arith)
            requires
                sizes.len() == rest.len() + 1,
        ;
    }
}

proof fn lemma_accent(c: char)
    ensures
        may_have_accent(c) ==> '\u{c0}' <= c <= '\u{36f}' || '\u{1d00}' <= c <= '\u{1ef1}'
            || '\u{2071}' <= c <= '\u{2184}',
        c <= '\u{7f}' ==> small_fold(c) is None,
{
}

/// A query is scored in a name if it has no more than 1260 characters, or if the name has no more
/// than 2520 bytes and the query less than 2^16 characters. It is so at least where the query has
/// no letters with an accent, or where the name is all ASCII.
pub proof fn law_ordinary_texts_can_be_scored(query: Seq<char>, name: Seq<char>)
    requires
        utf8_len(name) <= u32::MAX,
        query.len() <= 1260 || (utf8_len(name) <= 2520 && query.len() < 0x1_0000),
        is_ascii_chars(name) || forall|k: int|
            0 <= k < query.len() ==> !('\u{c0}' <= #[trigger] query[k] <= '\u{36f}') && !(
            '\u{1d00}' <= query[k] <= '\u{1ef1}') && !('\u{2071}' <= query[k] <= '\u{2184}'),
    ensures
        can_be_scored(query, name),
{
    let sizes = word_sizes(query);
    let name_len = utf8_len(name);
    lemma_word_sizes(query);
    assert forall|i: int| 0 <= i < sizes.len() implies most_points(#[trigger] sizes[i], name_len)
        <= u16::MAX by {
        assert(sizes[i] <= 2 * query.len());
    }
    lemma_most_points(sizes, name_len, u16::MAX as nat);
    assert(u16::MAX * sizes.len() <= u32::MAX);
    if is_ascii_chars(name) {
        assert forall|i: int| 0 <= i < name.len() implies !holds_fold(
            query,
            #[trigger] name[i],
        ) by {
            lemma_accent(name[i]);
        }
    } else {
        assert forall|k: int| 0 <= k < query.len() implies !may_have_accent(
            #[trigger] query[k],
        ) by {
            lemma_accent(query[k]);
        }
    }
}

} // verus!
