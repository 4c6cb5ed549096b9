//! Searching, replacing and splitting of text, over its characters.

use crate::text::{
    byte_len, byte_pos, lemma_on_char, lemma_pos_ends, lemma_pos_monotonic, lemma_pos_step,
    len_utf8, slice, utf8_len,
};
use vstd::prelude::*;
use vstd::utf8::is_ascii_chars;

verus! {

/// Whether `needle` stands in `hay` at character `i`.
pub open spec fn matches_at(hay: Seq<char>, needle: Seq<char>, i: int) -> bool {
    &&& 0 <= i
    &&& i + needle.len() <= hay.len()
    &&& hay.subrange(i, i + needle.len()) == needle
}

/// The characters at or after `i` at which `needle` is found, from left to right and without
/// overlap. An empty needle is found between all characters and at both ends.
pub open spec fn matches_from(hay: Seq<char>, needle: Seq<char>, i: int) -> Seq<int>
    decreases hay.len() - i + 1,
{
    if i < 0 || i > hay.len() {
        seq![]
    } else if !matches_at(hay, needle, i) {
        matches_from(hay, needle, i + 1)
    } else if needle.len() == 0 {
        seq![i] + matches_from(hay, needle, i + 1)
    } else {
        seq![i] + matches_from(hay, needle, i + needle.len())
    }
}

/// What `hay` becomes from character `i` on when `to` replaces each match of `needle`.
pub open spec fn replaced_from(
    hay: Seq<char>,
    needle: Seq<char>,
    to: Seq<char>,
    i: int,
) -> Seq<char>
    decreases hay.len() - i + 1,
{
    if i < 0 || i > hay.len() {
        seq![]
    } else if !matches_at(hay, needle, i) {
        hay.subrange(i, if i < hay.len() { i + 1 } else { i }) + replaced_from(
            hay,
            needle,
            to,
            i + 1,
        )
    } else if needle.len() == 0 {
        to + hay.subrange(i, if i < hay.len() { i + 1 } else { i }) + replaced_from(
            hay,
            needle,
            to,
            i + 1,
        )
    } else {
        to + replaced_from(hay, needle, to, i + needle.len())
    }
}

/// The characters of a string.
pub fn chars_of(s: &str) -> (r: Vec<char>)
    ensures
        r@ == s@,
{
    let mut r: Vec<char> = Vec::new();
    for c in it: s.chars()
        invariant
            it.seq() == s@,
            r@ == s@.take(it.index()),
    {
        proof {
            assert(s@.take(it.index() + 1) =~= s@.take(it.index()).push(s@[it.index()]));
        }
        r.push(c);
    }
    proof {
        assert(s@.take(s@.len() as int) =~= s@);
    }
    r
}

fn found_at(hay: &Vec<char>, needle: &Vec<char>, i: usize) -> (r: bool)
    requires
        i <= hay.len(),
    ensures
        r == matches_at(hay@, needle@, i as int),
{
    if needle.len() > hay.len() - i {
        return false;
    }
    let mut k: usize = 0;
    while k < needle.len()
        invariant
            k <= needle.len(),
            i + needle.len() <= hay.len(),
            forall|j: int| 0 <= j < k ==> hay@[i + j] == #[trigger] needle@[j],
        decreases needle.len() - k,
    {
        if hay[i + k] != needle[k] {
            proof {
                assert(hay@.subrange(i as int, i + needle.len())[k as int] == hay@[i + k]);
            }
            return false;
        }
        k += 1;
    }
    proof {
        assert(hay@.subrange(i as int, i + needle.len()) =~= needle@);
    }
    true
}

/// The byte offsets at which `needle` is found in `hay` (`str::match_indices`).
pub fn match_indices(hay: &Vec<char>, needle: &Vec<char>) -> (r: Vec<usize>)
    requires
        utf8_len(hay@) <= usize::MAX,
    ensures
        r@.len() == matches_from(hay@, needle@, 0).len(),
        forall|k: int|
            0 <= k < r@.len() ==> #[trigger] r@[k] == byte_pos(
                hay@,
                matches_from(hay@, needle@, 0)[k],
            ),
{
    let mut r: Vec<usize> = Vec::new();
    let mut i: usize = 0;
    let mut byte: usize = 0;
    let ghost mut found: Seq<int> = seq![];
    proof {
        lemma_pos_ends(hay@);
    }
    loop
        invariant_except_break
            matches_from(hay@, needle@, 0) == found + matches_from(hay@, needle@, i as int),
        invariant
            i <= hay.len(),
            byte == byte_pos(hay@, i as int),
            byte_pos(hay@, hay@.len() as int) <= usize::MAX,
            r@.len() == found.len(),
            forall|k: int| 0 <= k < r@.len() ==> #[trigger] r@[k] == byte_pos(hay@, found[k]),
        ensures
            matches_from(hay@, needle@, 0) == found,
        decreases hay.len() - i,
    {
        let hit = found_at(hay, needle, i);
        let ghost start = i as int;
        if hit {
            r.push(byte);
            proof {
                found = found.push(start);
            }
        }
        let step: usize = if hit && needle.len() > 0 {
            needle.len()
        } else {
            1
        };
        proof {
            let rest = matches_from(hay@, needle@, start + step);
            if hit {
                assert(found.drop_last() + (seq![start] + rest) =~= found + rest);
            }
        }
        if step > hay.len() - i {
            proof {
                assert(found + Seq::<int>::empty() =~= found);
            }
            break;
        }
        let end: usize = i + step;
        while i < end
            invariant
                start <= i <= end,
                end <= hay.len(),
                byte == byte_pos(hay@, i as int),
                byte_pos(hay@, hay@.len() as int) <= usize::MAX,
            decreases end - i,
        {
            proof {
                lemma_pos_step(hay@, i as int);
                lemma_pos_monotonic(hay@, i + 1, hay@.len() as int);
            }
            byte += len_utf8(hay[i]);
            i += 1;
        }
    }
    r
}

/// Replaces all matches of `from` (`str::replace`).
pub fn replace(s: &str, from: &str, to: &str) -> (r: String)
    ensures
        r@ == replaced_from(s@, from@, to@, 0),
{
    let total: usize = byte_len(s);
    let hay = chars_of(s);
    let needle = chars_of(from);
    let mut r = String::new();
    let mut i: usize = 0;
    let mut byte: usize = 0;
    // Where the characters start that are still to be copied.
    let mut kept: usize = 0;
    let ghost mut kept_i: int = 0;
    proof {
        lemma_pos_ends(s@);
        assert(r@ + s@.subrange(0, 0) + replaced_from(s@, from@, to@, 0) =~= replaced_from(
            s@,
            from@,
            to@,
            0,
        ));
    }
    loop
        invariant_except_break
            replaced_from(s@, from@, to@, 0) == r@ + s@.subrange(kept_i, i as int) + replaced_from(
                s@,
                from@,
                to@,
                i as int,
            ),
        invariant
            hay@ == s@,
            needle@ == from@,
            i <= hay.len(),
            0 <= kept_i <= i,
            byte == byte_pos(s@, i as int),
            kept == byte_pos(s@, kept_i),
            byte_pos(s@, s@.len() as int) == total,
        ensures
            replaced_from(s@, from@, to@, 0) == r@ + s@.subrange(kept_i, s@.len() as int),
        decreases hay.len() - i,
    {
        let hit = found_at(&hay, &needle, i);
        let ghost start = i as int;
        let ghost before = r@;
        if hit {
            proof {
                lemma_on_char(s@, kept_i);
                lemma_on_char(s@, start);
                lemma_pos_monotonic(s@, kept_i, start);
            }
            r.append(slice(s, kept, byte));
            r.append(to);
        }
        let step: usize = if hit && needle.len() > 0 {
            needle.len()
        } else {
            1
        };
        if step > hay.len() - i {
            proof {
                if hit {
                    kept_i = start;
                }
                let tail = s@.subrange(kept_i, s@.len() as int);
                assert(replaced_from(s@, from@, to@, start + 1) =~= Seq::<char>::empty());
                assert(s@.subrange(start, start) =~= Seq::<char>::empty());
                assert(replaced_from(s@, from@, to@, 0) =~= r@ + tail);
            }
            if hit {
                kept = byte;
            }
            break;
        }
        let end: usize = i + step;
        if hit && needle.len() == 0 {
            kept = byte;
            proof {
                kept_i = start;
            }
        }
        while i < end
            invariant
                hay@ == s@,
                start <= i <= end,
                end <= hay.len(),
                byte == byte_pos(s@, i as int),
                byte_pos(s@, s@.len() as int) == total,
            decreases end - i,
        {
            proof {
                lemma_pos_step(s@, i as int);
                lemma_pos_monotonic(s@, i + 1, s@.len() as int);
            }
            byte += len_utf8(hay[i]);
            i += 1;
        }
        if hit && needle.len() > 0 {
            kept = byte;
            proof {
                kept_i = i as int;
            }
        }
        proof {
            let rest = replaced_from(s@, from@, to@, i as int);
            if !hit {
                assert(s@.subrange(kept_i, i as int) =~= s@.subrange(kept_i, start) + s@.subrange(
                    start,
                    i as int,
                ));
            }
            assert(r@ + s@.subrange(kept_i, i as int) + rest =~= replaced_from(s@, from@, to@, 0));
        }
    }
    proof {
        lemma_on_char(s@, kept_i);
        lemma_on_char(s@, s@.len() as int);
        lemma_pos_monotonic(s@, kept_i, s@.len() as int);
    }
    r.append(slice(s, kept, total));
    r
}

/// What is found is there: the needle stands at each position, and none overlaps the one before.
pub proof fn law_matches_found(hay: Seq<char>, needle: Seq<char>, i: int)
    requires
        0 <= i,
    ensures
        forall|k: int|
            0 <= k < matches_from(hay, needle, i).len() ==> i <= #[trigger] matches_from(
                hay,
                needle,
                i,
            )[k] <= hay.len() && matches_at(hay, needle, matches_from(hay, needle, i)[k]),
        forall|j: int, k: int|
            0 <= j < k < matches_from(hay, needle, i).len() ==> #[trigger] matches_from(
                hay,
                needle,
                i,
            )[j] + needle.len() <= #[trigger] matches_from(hay, needle, i)[k],
    decreases hay.len() - i + 1,
{
    let all = matches_from(hay, needle, i);
    if i > hay.len() {
    } else if !matches_at(hay, needle, i) {
        law_matches_found(hay, needle, i + 1);
        assert(all == matches_from(hay, needle, i + 1));
    } else {
        let next = if needle.len() == 0 {
            i + 1
        } else {
            i + needle.len()
        };
        let rest = matches_from(hay, needle, next);
        law_matches_found(hay, needle, next);
        assert(all == seq![i] + rest);
        assert forall|k: int| 0 <= k < all.len() implies i <= #[trigger] all[k] <= hay.len()
            && matches_at(hay, needle, all[k]) by {
            if k > 0 {
                assert(all[k] == rest[k - 1]);
            }
        }
        assert forall|j: int, k: int| 0 <= j < k < all.len() implies #[trigger] all[j]
            + needle.len() <= #[trigger] all[k] by {
            assert(all[k] == rest[k - 1]);
            if j > 0 {
                assert(all[j] == rest[j - 1]);
            }
        }
    }
}

/// Nothing is missed: a match that is not found overlaps one that is.
pub proof fn law_no_match_missed(hay: Seq<char>, needle: Seq<char>, i: int, at: int)
    requires
        0 <= i <= at,
        matches_at(hay, needle, at),
    ensures
        exists|k: int|
            0 <= k < matches_from(hay, needle, i).len() && (#[trigger] matches_from(
                hay,
                needle,
                i,
            )[k]) <= at && (at == matches_from(hay, needle, i)[k] || at < matches_from(
                hay,
                needle,
                i,
            )[k] + needle.len()),
    decreases hay.len() - i + 1,
{
    let all = matches_from(hay, needle, i);
    if !matches_at(hay, needle, i) {
        law_no_match_missed(hay, needle, i + 1, at);
    } else {
        let next = if needle.len() == 0 {
            i + 1
        } else {
            i + needle.len()
        };
        let rest = matches_from(hay, needle, next);
        assert(all =~= seq![i] + rest);
        if at < next {
            assert(all[0] == i);
        } else {
            law_no_match_missed(hay, needle, next, at);
            let k = choose|k: int|
                0 <= k < rest.len() && (#[trigger] rest[k]) <= at && (at == rest[k] || at < rest[k]
                    + needle.len());
            assert(all[k + 1] == rest[k]);
        }
    }
}

/// Where the needle is not found, nothing is replaced.
pub proof fn law_replace_absent(hay: Seq<char>, needle: Seq<char>, to: Seq<char>, i: int)
    requires
        0 <= i <= hay.len(),
        matches_from(hay, needle, i).len() == 0,
    ensures
        replaced_from(hay, needle, to, i) == hay.skip(i),
    decreases hay.len() - i,
{
    if i < hay.len() {
        law_replace_absent(hay, needle, to, i + 1);
        assert(hay.subrange(i, i + 1) + hay.skip(i + 1) =~= hay.skip(i));
    } else {
        assert(replaced_from(hay, needle, to, i + 1) =~= Seq::<char>::empty());
        assert(replaced_from(hay, needle, to, i) =~= hay.skip(i));
    }
}

/// Where the needle is found once, it alone is replaced, and what stands around it is kept.
pub proof fn law_replace_once(hay: Seq<char>, needle: Seq<char>, to: Seq<char>, at: int)
    requires
        needle.len() > 0,
        matches_from(hay, needle, 0) == seq![at],
    ensures
        replaced_from(hay, needle, to, 0) == hay.take(at) + to + hay.skip(at + needle.len()),
        hay == hay.take(at) + needle + hay.skip(at + needle.len()),
{
    lemma_replace_once(hay, needle, to, 0, at);
    assert(hay.subrange(0, at) =~= hay.take(at));
    assert(hay =~= hay.take(at) + needle + hay.skip(at + needle.len()));
}

proof fn lemma_replace_once(
    hay: Seq<char>,
    needle: Seq<char>,
    to: Seq<char>,
    i: int,
    at: int,
)
    requires
        0 <= i <= hay.len(),
        needle.len() > 0,
        matches_from(hay, needle, i) == seq![at],
    ensures
        i <= at,
        matches_at(hay, needle, at),
        replaced_from(hay, needle, to, i) == hay.subrange(i, at) + to + hay.skip(
            at + needle.len(),
        ),
    decreases hay.len() - i,
{
    if matches_at(hay, needle, i) {
        let rest = matches_from(hay, needle, i + needle.len());
        assert((seq![i] + rest)[0] == i);
        assert(rest.len() == 0);
        law_replace_absent(hay, needle, to, i + needle.len());
        assert(hay.subrange(i, at) =~= Seq::<char>::empty());
        assert(Seq::<char>::empty() + to =~= to);
    } else if i < hay.len() {
        lemma_replace_once(hay, needle, to, i + 1, at);
        assert(hay.subrange(i, i + 1) + hay.subrange(i + 1, at) =~= hay.subrange(i, at));
        assert(replaced_from(hay, needle, to, i) =~= hay.subrange(i, at) + to + hay.skip(
            at + needle.len(),
        ));
    } else {
        assert(matches_from(hay, needle, i + 1) =~= Seq::<int>::empty());
    }
}

/// To replace the needle by itself changes nothing.
pub proof fn law_replace_by_itself(hay: Seq<char>, needle: Seq<char>, i: int)
    requires
        0 <= i <= hay.len(),
    ensures
        replaced_from(hay, needle, needle, i) == hay.skip(i),
    decreases hay.len() - i + 1,
{
    let r = replaced_from(hay, needle, needle, i);
    if matches_at(hay, needle, i) && needle.len() > 0 {
        let end = i + needle.len();
        law_replace_by_itself(hay, needle, end);
        assert(r == needle + hay.skip(end));
        assert(hay.subrange(i, end) + hay.skip(end) =~= hay.skip(i));
    } else if i < hay.len() {
        law_replace_by_itself(hay, needle, i + 1);
        assert(r =~= hay.subrange(i, i + 1) + hay.skip(i + 1));
        assert(hay.subrange(i, i + 1) + hay.skip(i + 1) =~= hay.skip(i));
    } else {
        assert(replaced_from(hay, needle, needle, i + 1) =~= Seq::<char>::empty());
        assert(r =~= hay.skip(i));
    }
}

/// The first line feed at or after character `i`, or the end of the text.
pub open spec fn line_feed_from(s: Seq<char>, i: int) -> int
    decreases s.len() - i,
{
    if i < 0 || i >= s.len() || s[i] == '\n' {
        i
    } else {
        line_feed_from(s, i + 1)
    }
}

/// The line from character `i` to `end`, without the CR of a CR LF that ends it.
pub open spec fn bare_line(s: Seq<char>, i: int, end: int) -> Seq<char> {
    if i < end < s.len() && s[end - 1] == '\r' {
        s.subrange(i, end - 1)
    } else {
        s.subrange(i, end)
    }
}

pub proof fn lemma_line_feed_from(s: Seq<char>, i: int)
    requires
        0 <= i <= s.len(),
    ensures
        i <= line_feed_from(s, i) <= s.len(),
        forall|k: int| i <= k < line_feed_from(s, i) ==> #[trigger] s[k] != '\n',
        line_feed_from(s, i) < s.len() ==> s[line_feed_from(s, i)] == '\n',
    decreases s.len() - i,
{
    if i < s.len() && s[i] != '\n' {
        lemma_line_feed_from(s, i + 1);
    }
}

/// The lines from character `i` on, without the LF or CR LF that ends each. Behind a line end
/// at the very end of the text there is no further line.
pub open spec fn lines_from(s: Seq<char>, i: int) -> Seq<Seq<char>>
    decreases s.len() - i + 1,
{
    if i < 0 || i >= s.len() {
        seq![]
    } else {
        let end = line_feed_from(s, i);
        proof {
            lemma_line_feed_from(s, i);
        }
        seq![bare_line(s, i, end)] + lines_from(s, end + 1)
    }
}

proof fn lemma_no_line_feed(s: Seq<char>, i: int, j: int)
    requires
        0 <= i <= j <= s.len(),
        forall|k: int| i <= k < j ==> #[trigger] s[k] != '\n',
        j == s.len() || s[j] == '\n',
    ensures
        line_feed_from(s, i) == j,
    decreases j - i,
{
    if i < j {
        lemma_no_line_feed(s, i + 1, j);
    }
}

/// The lines of a text (`str::lines`).
pub fn lines<'a>(s: &'a str) -> (r: Vec<&'a str>)
    ensures
        r@.len() == lines_from(s@, 0).len(),
        forall|k: int| 0 <= k < r@.len() ==> (#[trigger] r@[k])@ == lines_from(s@, 0)[k],
{
    let total: usize = byte_len(s);
    let mut r: Vec<&'a str> = Vec::new();
    // The start of the line that is being read, the place behind what was read of it, and the
    // place before the last character that was read.
    let mut start: usize = 0;
    let mut byte: usize = 0;
    let mut last: usize = 0;
    let mut last_is_cr: bool = false;
    let ghost mut first: int = 0;
    proof {
        lemma_pos_ends(s@);
    }
    for c in it: s.chars()
        invariant
            it.seq() == s@,
            total == byte_pos(s@, s@.len() as int),
            0 <= first <= it.index(),
            start == byte_pos(s@, first),
            byte == byte_pos(s@, it.index()),
            first < it.index() ==> last == byte_pos(s@, it.index() - 1),
            last_is_cr == (first < it.index() && s@[it.index() - 1] == '\r'),
            forall|k: int| first <= k < it.index() ==> #[trigger] s@[k] != '\n',
            lines_from(s@, 0).len() == r@.len() + lines_from(s@, first).len(),
            forall|k: int| 0 <= k < r@.len() ==> (#[trigger] r@[k])@ == lines_from(s@, 0)[k],
            lines_from(s@, 0).skip(r@.len() as int) == lines_from(s@, first),
    {
        let ghost i = it.index();
        proof {
            lemma_pos_step(s@, i);
            lemma_pos_monotonic(s@, i + 1, s@.len() as int);
        }
        let width: usize = len_utf8(c);
        if c == '\n' {
            let end: usize = if last_is_cr {
                last
            } else {
                byte
            };
            proof {
                lemma_no_line_feed(s@, first, i);
                lemma_on_char(s@, first);
                lemma_on_char(s@, i);
                lemma_pos_monotonic(s@, first, i);
                if last_is_cr {
                    lemma_on_char(s@, i - 1);
                    lemma_pos_monotonic(s@, first, i - 1);
                }
                let rest = lines_from(s@, i + 1);
                assert(lines_from(s@, first) == seq![bare_line(s@, first, i)] + rest);
                assert(lines_from(s@, 0)[r@.len() as int] == lines_from(s@, 0).skip(
                    r@.len() as int,
                )[0]);
                assert(lines_from(s@, 0).skip((r@.len() + 1) as int) =~= lines_from(s@, 0).skip(
                    r@.len() as int,
                ).skip(1));
                assert(lines_from(s@, first).skip(1) =~= rest);
                first = i + 1;
            }
            r.push(slice(s, start, end));
            start = byte + width;
            last_is_cr = false;
        } else {
            last_is_cr = c == '\r';
        }
        last = byte;
        byte += width;
    }
    if start < total {
        proof {
            let n = s@.len() as int;
            lemma_no_line_feed(s@, first, n);
            lemma_on_char(s@, first);
            lemma_on_char(s@, n);
            lemma_pos_ends(s@);
            assert(lines_from(s@, n + 1) =~= Seq::<Seq<char>>::empty());
            assert(lines_from(s@, first) =~= seq![s@.subrange(first, n)]);
            assert(lines_from(s@, 0)[r@.len() as int] == lines_from(s@, 0).skip(
                r@.len() as int,
            )[0]);
        }
        r.push(slice(s, start, total));
    } else {
        proof {
            if first < s@.len() {
                lemma_pos_monotonic(s@, first, s@.len() as int);
            }
        }
    }
    r
}

/// The characters of Unicode's property `White_Space`.
pub open spec fn is_white_space(c: char) -> bool {
    let code = c as u32;
    ||| 0x9 <= code <= 0xd
    ||| code == 0x20
    ||| code == 0x85
    ||| code == 0xa0
    ||| code == 0x1680
    ||| 0x2000 <= code <= 0x200a
    ||| code == 0x2028
    ||| code == 0x2029
    ||| code == 0x202f
    ||| code == 0x205f
    ||| code == 0x3000
}

/// `s` without the white space that it starts with.
pub open spec fn trimmed_start(s: Seq<char>) -> Seq<char>
    decreases s.len(),
{
    if s.len() > 0 && is_white_space(s[0]) {
        trimmed_start(s.drop_first())
    } else {
        s
    }
}

/// `s` without the white space that it ends with.
pub open spec fn trimmed_end(s: Seq<char>) -> Seq<char>
    decreases s.len(),
{
    if s.len() > 0 && is_white_space(s.last()) {
        trimmed_end(s.drop_last())
    } else {
        s
    }
}

fn white_space(c: char) -> (r: bool)
    ensures
        r == is_white_space(c),
{
    let code: u32 = c as u32;
    (0x9 <= code && code <= 0xd) || code == 0x20 || code == 0x85 || code == 0xa0 || code == 0x1680
        || (0x2000 <= code && code <= 0x200a) || code == 0x2028 || code == 0x2029 || code == 0x202f
        || code == 0x205f || code == 0x3000
}

/// Removes the white space at both ends (`str::trim`).
pub fn trim<'a>(s: &'a str) -> (r: &'a str)
    ensures
        r@ == trimmed_end(trimmed_start(s@)),
{
    let chars = chars_of(s);
    let total: usize = byte_len(s);
    let mut i: usize = 0;
    let mut start: usize = 0;
    proof {
        lemma_pos_ends(s@);
        assert(s@.skip(0) =~= s@);
    }
    while i < chars.len() && white_space(chars[i])
        invariant
            chars@ == s@,
            i <= chars.len(),
            start == byte_pos(s@, i as int),
            total == byte_pos(s@, s@.len() as int),
            trimmed_start(s@) == trimmed_start(s@.skip(i as int)),
        decreases chars.len() - i,
    {
        proof {
            lemma_pos_step(s@, i as int);
            lemma_pos_monotonic(s@, i + 1, s@.len() as int);
            assert(s@.skip(i as int).drop_first() =~= s@.skip(i + 1));
        }
        start += len_utf8(chars[i]);
        i += 1;
    }
    let ghost t = trimmed_start(s@);
    assert(t == s@.skip(i as int));
    let mut j: usize = chars.len();
    let mut end: usize = total;
    proof {
        assert(s@.subrange(i as int, j as int) =~= t);
    }
    while j > i && white_space(chars[j - 1])
        invariant
            chars@ == s@,
            i <= j <= chars.len(),
            end == byte_pos(s@, j as int),
            trimmed_end(t) == trimmed_end(s@.subrange(i as int, j as int)),
        decreases j,
    {
        proof {
            lemma_pos_step(s@, j - 1);
            assert(s@.subrange(i as int, j as int).drop_last() =~= s@.subrange(i as int, j - 1));
        }
        j -= 1;
        end -= len_utf8(chars[j]);
    }
    proof {
        lemma_on_char(s@, i as int);
        lemma_on_char(s@, j as int);
        lemma_pos_monotonic(s@, i as int, j as int);
    }
    slice(s, start, end)
}

/// Whether `s` starts with `prefix` (`str::starts_with`).
pub fn starts_with(s: &str, prefix: &str) -> (r: bool)
    ensures
        r == prefix@.is_prefix_of(s@),
{
    let hay = chars_of(s);
    let needle = chars_of(prefix);
    let r = found_at(&hay, &needle, 0);
    proof {
        if r {
            assert(s@.subrange(0, prefix@.len() as int) =~= prefix@);
        } else if prefix@.is_prefix_of(s@) {
            assert(s@.subrange(0, prefix@.len() as int) =~= prefix@);
        }
    }
    r
}

/// What `str::to_lowercase` makes of a text that is not all ASCII.
pub uninterp spec fn unicode_lowercase(s: Seq<char>) -> Seq<char>;

/// The lower case of an ASCII character.
pub open spec fn ascii_lower(c: char) -> char {
    if 'A' <= c <= 'Z' {
        (c as u32 + 32) as char
    } else {
        c
    }
}

/// The lower case of a text.
pub open spec fn lowercase(s: Seq<char>) -> Seq<char> {
    if is_ascii_chars(s) {
        s.map_values(|c: char| ascii_lower(c))
    } else {
        unicode_lowercase(s)
    }
}

/// `str::to_lowercase`. In a text that is all ASCII each capital letter becomes its small letter.
/// What becomes of another text is a matter of Unicode's tables and only named.
#[verifier::external_body]
pub(crate) fn to_lowercase(s: &str) -> (r: String)
    ensures
        is_ascii_chars(s@) ==> r@ == lowercase(s@),
        !is_ascii_chars(s@) ==> r@ == unicode_lowercase(s@),
{
    s.to_lowercase()
}

/// The number of line feeds in a text.
pub open spec fn line_feeds(s: Seq<char>) -> nat {
    s.filter(|c: char| c == '\n').len()
}

/// Line feeds are counted part by part.
pub proof fn law_line_feeds_add_up(a: Seq<char>, b: Seq<char>)
    ensures
        line_feeds(a + b) == line_feeds(a) + line_feeds(b),
{
    Seq::filter_distributes_over_add(a, b, |c: char| c == '\n');
}

pub proof fn lemma_no_line_feeds(s: Seq<char>)
    requires
        forall|k: int| 0 <= k < s.len() ==> #[trigger] s[k] != '\n',
    ensures
        line_feeds(s) == 0,
    decreases s.len(),
{
    reveal(Seq::filter);
    if s.len() > 0 {
        lemma_no_line_feeds(s.drop_last());
        assert(s[s.len() - 1] != '\n');
    }
}

/// One line feed is counted, behind characters of which none is one.
proof fn lemma_line_feeds_of_line(s: Seq<char>, i: int, end: int, a: int)
    requires
        0 <= i <= end < a <= s.len(),
        forall|k: int| i <= k < end ==> #[trigger] s[k] != '\n',
        s[end] == '\n',
    ensures
        line_feeds(s.subrange(i, a)) == line_feeds(s.subrange(end + 1, a)) + 1,
{
    let line = s.subrange(i, end);
    let feed = seq!['\n'];
    assert forall|k: int| 0 <= k < line.len() implies #[trigger] line[k] != '\n' by {
        assert(s[i + k] != '\n');
    }
    lemma_no_line_feeds(line);
    reveal_with_fuel(Seq::filter, 2);
    assert(feed.drop_last() =~= Seq::<char>::empty());
    assert(line_feeds(feed) == 1);
    law_line_feeds_add_up(line, feed);
    law_line_feeds_add_up(line + feed, s.subrange(end + 1, a));
    assert(line + feed + s.subrange(end + 1, a) =~= s.subrange(i, a));
}

proof fn lemma_line_place(s: Seq<char>, i: int, k: int) -> (a: int)
    requires
        0 <= i <= s.len(),
        0 <= k < lines_from(s, i).len(),
    ensures
        i <= a,
        a + lines_from(s, i)[k].len() <= s.len(),
        s.subrange(a, a + lines_from(s, i)[k].len()) == lines_from(s, i)[k],
        line_feeds(s.subrange(i, a)) == k,
        a == i || s[a - 1] == '\n',
        forall|j: int| a <= j < a + lines_from(s, i)[k].len() ==> #[trigger] s[j] != '\n',
        is_line_end(s, a + lines_from(s, i)[k].len()),
        ({
            let e = a + lines_from(s, i)[k].len();
            a < e < s.len() && s[e] == '\n' ==> s[e - 1] != '\r'
        }),
    decreases s.len() - i,
{
    let end = line_feed_from(s, i);
    lemma_line_feed_from(s, i);
    let rest = lines_from(s, end + 1);
    assert(lines_from(s, i) == seq![bare_line(s, i, end)] + rest);
    if k == 0 {
        lemma_no_line_feeds(s.subrange(i, i));
        i
    } else {
        assert(lines_from(s, i)[k] == rest[k - 1]);
        let a = lemma_line_place(s, end + 1, k - 1);
        lemma_line_feeds_of_line(s, i, end, a);
        a
    }
}

/// Whether what stands before character `e` of a text is ended there: by the end of the text, by
/// an LF or by a CR LF.
pub open spec fn is_line_end(s: Seq<char>, e: int) -> bool {
    ||| e == s.len()
    ||| s[e] == '\n'
    ||| e + 1 < s.len() && s[e] == '\r' && s[e + 1] == '\n'
}

/// Line `k` of a text stands in it behind `k` line feeds, holds none itself, and is what stands
/// between the start of the text or a line feed and the next line end; a CR before an LF does not
/// belong to it. The character at which it starts is given.
pub proof fn law_line_stands_in_text(s: Seq<char>, k: int) -> (a: int)
    requires
        0 <= k < lines_from(s, 0).len(),
    ensures
        0 <= a,
        a + lines_from(s, 0)[k].len() <= s.len(),
        s.subrange(a, a + lines_from(s, 0)[k].len()) == lines_from(s, 0)[k],
        line_feeds(s.take(a)) == k,
        a == 0 || s[a - 1] == '\n',
        forall|j: int| a <= j < a + lines_from(s, 0)[k].len() ==> #[trigger] s[j] != '\n',
        is_line_end(s, a + lines_from(s, 0)[k].len()),
        ({
            let e = a + lines_from(s, 0)[k].len();
            a < e < s.len() && s[e] == '\n' ==> s[e - 1] != '\r'
        }),
{
    let a = lemma_line_place(s, 0, k);
    assert(s.subrange(0, a) =~= s.take(a));
    a
}

proof fn lemma_char_line_from(s: Seq<char>, i: int, p: int) -> (a: int)
    requires
        0 <= i <= p < s.len(),
        !is_line_end(s, p),
    ensures
        line_feeds(s.subrange(i, p)) < lines_from(s, i).len(),
        i <= a <= p,
        a == i || s[a - 1] == '\n',
        ({
            let k = line_feeds(s.subrange(i, p)) as int;
            let line = lines_from(s, i)[k];
            &&& p < a + line.len() <= s.len()
            &&& s.subrange(a, a + line.len()) == line
            &&& is_line_end(s, a + line.len())
            &&& forall|j: int| a <= j < a + line.len() ==> #[trigger] s[j] != '\n'
            &&& a + line.len() < s.len() && s[a + line.len()] == '\n' ==> s[a + line.len() - 1]
                != '\r'
        }),
    decreases s.len() - i,
{
    let end = line_feed_from(s, i);
    lemma_line_feed_from(s, i);
    let rest = lines_from(s, end + 1);
    assert(lines_from(s, i) == seq![bare_line(s, i, end)] + rest);
    if p < end {
        let before = s.subrange(i, p);
        assert forall|k: int| 0 <= k < before.len() implies #[trigger] before[k] != '\n' by {
            assert(s[i + k] != '\n');
        }
        lemma_no_line_feeds(before);
        i
    } else {
        let a = lemma_char_line_from(s, end + 1, p);
        lemma_line_feeds_of_line(s, i, end, p);
        let k = line_feeds(s.subrange(i, p)) as int;
        assert(lines_from(s, i)[k] == rest[k - 1]);
        a
    }
}

/// No character is lost: one that ends no line stands in the line whose number is that of the line
/// feeds before it. The character at which the line starts is given.
pub proof fn law_char_stands_in_line(s: Seq<char>, p: int) -> (a: int)
    requires
        0 <= p < s.len(),
        !is_line_end(s, p),
    ensures
        line_feeds(s.take(p)) < lines_from(s, 0).len(),
        0 <= a <= p,
        a == 0 || s[a - 1] == '\n',
        ({
            let line = lines_from(s, 0)[line_feeds(s.take(p)) as int];
            &&& p < a + line.len() <= s.len()
            &&& s.subrange(a, a + line.len()) == line
            &&& is_line_end(s, a + line.len())
            &&& forall|j: int| a <= j < a + line.len() ==> #[trigger] s[j] != '\n'
            &&& a + line.len() < s.len() && s[a + line.len()] == '\n' ==> s[a + line.len() - 1]
                != '\r'
        }),
{
    let a = lemma_char_line_from(s, 0, p);
    assert(s.subrange(0, p) =~= s.take(p));
    a
}

proof fn lemma_line_count_from(s: Seq<char>, i: int)
    requires
        0 <= i < s.len(),
    ensures
        lines_from(s, i).len() == line_feeds(s.subrange(i, s.len() - 1)) + 1,
    decreases s.len() - i,
{
    let last = s.len() - 1;
    let end = line_feed_from(s, i);
    lemma_line_feed_from(s, i);
    if end < last {
        lemma_line_count_from(s, end + 1);
        lemma_line_feeds_of_line(s, i, end, last);
    } else {
        let line = s.subrange(i, last);
        assert forall|k: int| 0 <= k < line.len() implies #[trigger] line[k] != '\n' by {
            assert(s[i + k] != '\n');
        }
        lemma_no_line_feeds(line);
        assert(lines_from(s, end + 1) =~= Seq::<Seq<char>>::empty());
    }
}

/// An empty text has no lines, another one more than there are line feeds before its last
/// character.
pub proof fn law_line_count(s: Seq<char>)
    ensures
        s.len() == 0 ==> lines_from(s, 0).len() == 0,
        s.len() > 0 ==> lines_from(s, 0).len() == line_feeds(s.drop_last()) + 1,
{
    if s.len() > 0 {
        lemma_line_count_from(s, 0);
        assert(s.subrange(0, s.len() - 1) =~= s.drop_last());
    }
}

/// What a text becomes from a character on depends on what stands from there on alone.
pub proof fn lemma_replaced_of_rest(
    hay: Seq<char>,
    rest: Seq<char>,
    needle: Seq<char>,
    to: Seq<char>,
    at: int,
    i: int,
)
    requires
        0 <= at <= hay.len(),
        rest == hay.skip(at),
        0 <= i,
    ensures
        replaced_from(hay, needle, to, at + i) == replaced_from(rest, needle, to, i),
    decreases rest.len() - i + 1,
{
    if i <= rest.len() {
        let end = i + needle.len();
        if end <= rest.len() {
            assert(hay.subrange(at + i, at + end) =~= rest.subrange(i, end));
        }
        assert(matches_at(hay, needle, at + i) == matches_at(rest, needle, i));
        if i < rest.len() {
            assert(hay.subrange(at + i, at + i + 1) =~= rest.subrange(i, i + 1));
        } else {
            assert(hay.subrange(at + i, at + i) =~= rest.subrange(i, i));
        }
        if matches_at(rest, needle, i) && needle.len() > 0 {
            lemma_replaced_of_rest(hay, rest, needle, to, at, end);
        } else {
            lemma_replaced_of_rest(hay, rest, needle, to, at, i + 1);
        }
    }
}

/// Where the needle stands nowhere, it is not found.
pub proof fn lemma_no_match(hay: Seq<char>, needle: Seq<char>)
    requires
        forall|i: int| !#[trigger] matches_at(hay, needle, i),
    ensures
        matches_from(hay, needle, 0).len() == 0,
{
    law_matches_found(hay, needle, 0);
    let all = matches_from(hay, needle, 0);
    if all.len() > 0 {
        assert(matches_at(hay, needle, all[0]));
    }
}

/// What is found is found from left to right, each match once.
pub proof fn law_matches_in_order(hay: Seq<char>, needle: Seq<char>, i: int, j: int, k: int)
    requires
        0 <= i,
        0 <= j < k < matches_from(hay, needle, i).len(),
    ensures
        matches_from(hay, needle, i)[j] < matches_from(hay, needle, i)[k],
    decreases hay.len() - i + 1,
{
    let all = matches_from(hay, needle, i);
    if i <= hay.len() {
        if !matches_at(hay, needle, i) {
            law_matches_in_order(hay, needle, i + 1, j, k);
        } else {
            let next = if needle.len() == 0 {
                i + 1
            } else {
                i + needle.len()
            };
            let rest = matches_from(hay, needle, next);
            assert(all == seq![i] + rest);
            assert(all[k] == rest[k - 1]);
            law_matches_found(hay, needle, next);
            if j > 0 {
                assert(all[j] == rest[j - 1]);
                law_matches_in_order(hay, needle, next, j - 1, k - 1);
            }
        }
    }
}

proof fn lemma_trimmed_start(s: Seq<char>) -> (a: int)
    ensures
        0 <= a <= s.len(),
        trimmed_start(s) == s.skip(a),
        forall|i: int| 0 <= i < a ==> is_white_space(#[trigger] s[i]),
        a < s.len() ==> !is_white_space(s[a]),
    decreases s.len(),
{
    if s.len() > 0 && is_white_space(s[0]) {
        let rest = s.drop_first();
        let a = lemma_trimmed_start(rest);
        assert(rest.skip(a) =~= s.skip(a + 1));
        assert forall|i: int| 0 <= i < a + 1 implies is_white_space(#[trigger] s[i]) by {
            if i > 0 {
                assert(s[i] == rest[i - 1]);
            }
        }
        a + 1
    } else {
        assert(s.skip(0) =~= s);
        0
    }
}

proof fn lemma_trimmed_end(s: Seq<char>) -> (b: int)
    ensures
        0 <= b <= s.len(),
        trimmed_end(s) == s.take(b),
        forall|i: int| b <= i < s.len() ==> is_white_space(#[trigger] s[i]),
        b > 0 ==> !is_white_space(s[b - 1]),
    decreases s.len(),
{
    if s.len() > 0 && is_white_space(s.last()) {
        let rest = s.drop_last();
        let b = lemma_trimmed_end(rest);
        assert(rest.take(b) =~= s.take(b));
        assert forall|i: int| b <= i < s.len() implies is_white_space(#[trigger] s[i]) by {
            if i < s.len() - 1 {
                assert(s[i] == rest[i]);
            }
        }
        b
    } else {
        assert(s.take(s.len() as int) =~= s);
        s.len() as int
    }
}

/// What is trimmed away is white space, and what is left neither starts nor ends with any. Where
/// in the text it stands is given.
pub proof fn law_trimmed(s: Seq<char>) -> (place: (int, int))
    ensures
        0 <= place.0 <= place.1 <= s.len(),
        trimmed_end(trimmed_start(s)) == s.subrange(place.0, place.1),
        forall|i: int| 0 <= i < place.0 ==> is_white_space(#[trigger] s[i]),
        forall|i: int| place.1 <= i < s.len() ==> is_white_space(#[trigger] s[i]),
        place.0 < place.1 ==> !is_white_space(s[place.0]) && !is_white_space(s[place.1 - 1]),
{
    let a = lemma_trimmed_start(s);
    let rest = s.skip(a);
    let b = lemma_trimmed_end(rest);
    assert(rest.take(b) =~= s.subrange(a, a + b));
    assert forall|i: int| a + b <= i < s.len() implies is_white_space(#[trigger] s[i]) by {
        assert(s[i] == rest[i - a]);
    }
    (a, a + b)
}

/// These characters are white space, and no others.
pub proof fn law_white_space(c: char)
    ensures
        is_white_space(c) <==> {
            ||| c == '\t' || c == '\n' || c == '\u{b}' || c == '\u{c}' || c == '\r' || c == ' '
            ||| c == '\u{85}' || c == '\u{a0}' || c == '\u{1680}' || c == '\u{2000}'
            ||| c == '\u{2001}' || c == '\u{2002}' || c == '\u{2003}' || c == '\u{2004}'
            ||| c == '\u{2005}' || c == '\u{2006}' || c == '\u{2007}' || c == '\u{2008}'
            ||| c == '\u{2009}' || c == '\u{200a}' || c == '\u{2028}' || c == '\u{2029}'
            ||| c == '\u{202f}' || c == '\u{205f}' || c == '\u{3000}'
        },
{
}

/// The lower case of an ASCII text has a small letter for each capital, and the same character
/// for each other.
pub proof fn law_ascii_lowercase(s: Seq<char>, i: int)
    requires
        is_ascii_chars(s),
        0 <= i < s.len(),
    ensures
        lowercase(s).len() == s.len(),
        lowercase(s)[i] as u32 == s[i] as u32 + (if 'A' <= s[i] <= 'Z' {
            32int
        } else {
            0
        }),
{
    assert('\0' <= s[i] <= '\u{7f}');
}

/// What stands between the start of the text or a line feed and the next line end is a line, whose
/// number is that of the line feeds before it.
pub proof fn law_stretch_is_line(s: Seq<char>, b: int, e: int, p: int)
    requires
        0 <= b <= p < e <= s.len(),
        b == 0 || s[b - 1] == '\n',
        forall|j: int| b <= j < e ==> #[trigger] s[j] != '\n',
        is_line_end(s, e),
        e < s.len() && s[e] == '\n' ==> s[e - 1] != '\r',
    ensures
        line_feeds(s.take(p)) < lines_from(s, 0).len(),
        lines_from(s, 0)[line_feeds(s.take(p)) as int] == s.subrange(b, e),
{
    assert(s[p] != '\n');
    if p + 1 < e {
        assert(s[p + 1] != '\n');
    }
    let a = law_char_stands_in_line(s, p);
    let end = a + lines_from(s, 0)[line_feeds(s.take(p)) as int].len();
    if a < b {
        assert(s[b - 1] == '\n');
    }
    if b < a {
        assert(s[a - 1] == '\n');
    }
    if end < e {
        assert(s[end] != '\n');
        if end + 1 < e {
            assert(s[end + 1] != '\n');
        }
    }
    if e < end {
        assert(s[e] != '\n');
        if e + 1 < end {
            assert(s[e + 1] != '\n');
        }
    }
}

} // verus!
