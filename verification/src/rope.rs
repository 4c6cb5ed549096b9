//! The text of an open document, held in a rope, and the lines that it is made of.

use crate::protocol::{ChangeView, ContentChange, Range};
use crate::search::{
    law_replace_absent, lemma_no_match, lemma_replaced_of_rest, line_feeds, matches_at,
    matches_from, replace, replaced_from,
};
use crate::text::{byte_pos, lemma_pos_ends, lemma_pos_monotonic, lemma_subrange_len, utf8_len};
use ropey::Rope;
use vstd::prelude::*;

verus! {

#[verifier::external_type_specification]
#[verifier::external_body]
pub struct ExRope(ropey::Rope);

/// The characters that a rope holds.
pub uninterp spec fn rope_text(rope: Rope) -> Seq<char>;

/// The characters that end a line: LF, VT, FF, CR, NEL, LS and PS.
pub open spec fn is_line_break(c: char) -> bool {
    ||| 0xa <= c as u32 <= 0xd
    ||| c as u32 == 0x85
    ||| c as u32 == 0x2028
    ||| c as u32 == 0x2029
}

/// Whether a line ends with character `i`; a CR before an LF does not end one.
pub open spec fn ends_line(t: Seq<char>, i: int) -> bool {
    is_line_break(t[i]) && !(t[i] == '\r' && i + 1 < t.len() && t[i + 1] == '\n')
}

/// The number of lines that end within the first `i` characters.
pub open spec fn lines_ended(t: Seq<char>, i: int) -> nat
    decreases i,
{
    if i <= 0 {
        0
    } else {
        lines_ended(t, i - 1) + if ends_line(t, i - 1) {
            1nat
        } else {
            0
        }
    }
}

/// The number of lines; what follows the last line break is a line too, empty or not.
pub open spec fn line_count(t: Seq<char>) -> nat {
    lines_ended(t, t.len() as int) + 1
}

/// The least `i <= n` such that `k` lines end within the first `i` characters, else `n`.
pub open spec fn line_start_within(t: Seq<char>, k: int, n: int) -> int
    decreases n,
{
    if n <= 0 {
        0
    } else if lines_ended(t, n - 1) >= k {
        line_start_within(t, k, n - 1)
    } else {
        n
    }
}

/// The character at which line `k` starts; the end of the text for a line beyond the last.
pub open spec fn line_start(t: Seq<char>, k: int) -> int {
    line_start_within(t, k, t.len() as int)
}

/// Line `k`, with the line break that ends it.
pub open spec fn line_text(t: Seq<char>, k: int) -> Seq<char> {
    t.subrange(line_start(t, k), line_start(t, k + 1))
}

/// The number of characters that lie wholly within the first `byte` bytes.
pub open spec fn chars_within(t: Seq<char>, byte: int) -> nat
    decreases t.len(),
{
    if t.len() == 0 {
        0
    } else if utf8_len(t) <= byte {
        t.len()
    } else {
        chars_within(t.drop_last(), byte)
    }
}

/// The line that byte `byte` lies on.
pub open spec fn line_of_byte(t: Seq<char>, byte: int) -> nat {
    lines_ended(t, chars_within(t, byte) as int)
}

/// `Rope::from_str`: the rope holds the characters of `text`.
#[verifier::external_body]
pub(crate) fn rope_from_str(text: &str) -> (rope: Rope)
    ensures
        rope_text(rope) == text@,
{
    Rope::from_str(text)
}

/// `Rope::clone`: the copy holds the same characters.
#[verifier::external_body]
pub(crate) fn rope_clone(rope: &Rope) -> (copy: Rope)
    ensures
        rope_text(copy) == rope_text(*rope),
{
    rope.clone()
}

/// `Rope::len_chars`: the number of characters.
#[verifier::external_body]
pub(crate) fn rope_len_chars(rope: &Rope) -> (n: usize)
    ensures
        n == rope_text(*rope).len(),
{
    rope.len_chars()
}

/// `Rope::len_lines`: the number of lines, as `line_count` counts them.
#[verifier::external_body]
pub(crate) fn rope_len_lines(rope: &Rope) -> (n: usize)
    ensures
        n == line_count(rope_text(*rope)),
{
    rope.len_lines()
}

/// `Rope::line_to_char`: the character at which the line starts. It panics for a line beyond
/// the one past the last.
#[verifier::external_body]
pub(crate) fn rope_line_to_char(rope: &Rope, line: usize) -> (i: usize)
    requires
        line <= line_count(rope_text(*rope)),
    ensures
        i == line_start(rope_text(*rope), line as int),
{
    rope.line_to_char(line)
}

/// `Rope::remove` on the characters from `start` to `end`. It panics for a range that is
/// reversed or reaches beyond the text.
#[verifier::external_body]
pub(crate) fn rope_remove(rope: &mut Rope, start: usize, end: usize)
    requires
        start <= end <= rope_text(*old(rope)).len(),
    ensures
        rope_text(*final(rope)) == rope_text(*old(rope)).take(start as int) + rope_text(
            *old(rope),
        ).skip(end as int),
{
    rope.remove(start..end)
}

/// `Rope::insert` before character `at`. It panics for a place beyond the text.
#[verifier::external_body]
pub(crate) fn rope_insert(rope: &mut Rope, at: usize, text: &str)
    requires
        at <= rope_text(*old(rope)).len(),
    ensures
        rope_text(*final(rope)) == rope_text(*old(rope)).take(at as int) + text@ + rope_text(
            *old(rope),
        ).skip(at as int),
{
    rope.insert(at, text)
}

/// `Rope::get_line`: the line with its line break, or `None` beyond the last line.
#[verifier::external_body]
pub(crate) fn rope_get_line(rope: &Rope, line: usize) -> (r: Option<String>)
    ensures
        r is Some <==> line < line_count(rope_text(*rope)),
        r is Some ==> r->0@ == line_text(rope_text(*rope), line as int),
{
    rope.get_line(line).map(String::from)
}

/// `Rope`'s `Display`: all of the text.
#[verifier::external_body]
pub(crate) fn rope_to_string(rope: &Rope) -> (s: String)
    ensures
        s@ == rope_text(*rope),
{
    rope.to_string()
}

/// `Rope::try_byte_to_line`: the line that the byte lies on, or an error beyond the text.
#[verifier::external_body]
pub(crate) fn rope_byte_to_line(rope: &Rope, byte: usize) -> (r: Option<usize>)
    ensures
        r is Some <==> byte <= utf8_len(rope_text(*rope)),
        r is Some ==> r->0 == line_of_byte(rope_text(*rope), byte as int),
{
    rope.try_byte_to_line(byte).ok()
}

/// `Rope::try_line_to_byte`: the byte at which the line starts, or an error beyond the line
/// past the last.
#[verifier::external_body]
pub(crate) fn rope_line_to_byte(rope: &Rope, line: usize) -> (r: Option<usize>)
    ensures
        r is Some <==> line <= line_count(rope_text(*rope)),
        r is Some ==> r->0 == byte_pos(
            rope_text(*rope),
            line_start(rope_text(*rope), line as int),
        ),
{
    rope.try_line_to_byte(line).ok()
}

pub proof fn lemma_lines_ended(t: Seq<char>, i: int, j: int)
    requires
        0 <= i <= j,
    ensures
        lines_ended(t, i) <= lines_ended(t, j) <= lines_ended(t, i) + (j - i),
    decreases j - i,
{
    if i < j {
        lemma_lines_ended(t, i, j - 1);
    }
}

proof fn lemma_line_start_within(t: Seq<char>, k: int, n: int)
    requires
        0 <= n,
        0 <= k,
    ensures
        0 <= line_start_within(t, k, n) <= n,
        lines_ended(t, line_start_within(t, k, n)) >= k || line_start_within(t, k, n) == n,
        forall|i: int|
            0 <= i < line_start_within(t, k, n) ==> (#[trigger] lines_ended(t, i)) < k,
    decreases n,
{
    if n > 0 {
        if lines_ended(t, n - 1) >= k {
            lemma_line_start_within(t, k, n - 1);
        } else {
            assert forall|i: int| 0 <= i < n implies (#[trigger] lines_ended(t, i)) < k by {
                lemma_lines_ended(t, i, n - 1);
            }
        }
    }
}

/// Where a line starts: behind as many line breaks as there are lines before it.
pub proof fn lemma_line_start(t: Seq<char>, k: int)
    requires
        0 <= k,
    ensures
        0 <= line_start(t, k) <= t.len(),
        k < line_count(t) ==> lines_ended(t, line_start(t, k)) == k,
        k >= line_count(t) ==> line_start(t, k) == t.len(),
        forall|i: int| 0 <= i < line_start(t, k) ==> (#[trigger] lines_ended(t, i)) < k,
{
    let n = t.len() as int;
    lemma_line_start_within(t, k, n);
    let i = line_start(t, k);
    if k < line_count(t) {
        if i > 0 {
            assert(lines_ended(t, i - 1) < k);
        }
    } else {
        lemma_lines_ended(t, i, n);
    }
}

/// A byte lies on its line.
pub proof fn lemma_line_of_byte(t: Seq<char>, byte: int)
    requires
        0 <= byte <= utf8_len(t),
    ensures
        line_of_byte(t, byte) < line_count(t),
        byte_pos(t, line_start(t, line_of_byte(t, byte) as int)) <= byte,
        byte - byte_pos(t, line_start(t, line_of_byte(t, byte) as int)) <= utf8_len(
            line_text(t, line_of_byte(t, byte) as int),
        ),
        line_start(t, line_of_byte(t, byte) as int) <= line_start(
            t,
            line_of_byte(t, byte) as int + 1,
        ),
{
    let n = chars_within(t, byte) as int;
    let k = line_of_byte(t, byte) as int;
    lemma_pos_ends(t);
    lemma_chars_within(t, byte);
    lemma_lines_ended(t, n, t.len() as int);
    lemma_line_start(t, k);
    lemma_line_start(t, k + 1);
    let a = line_start(t, k);
    let b = line_start(t, k + 1);
    if a > n {
        assert(lines_ended(t, n) < k);
    }
    if k + 1 < line_count(t) {
        if b <= n {
            lemma_lines_ended(t, b, n);
        }
    }
    lemma_pos_monotonic(t, a, n);
    lemma_pos_monotonic(t, n, b);
    if n < t.len() {
        lemma_pos_monotonic(t, n + 1, b);
    }
    lemma_subrange_len(t, a, b);
}

proof fn lemma_chars_within(t: Seq<char>, byte: int)
    requires
        0 <= byte,
    ensures
        chars_within(t, byte) <= t.len(),
        byte_pos(t, chars_within(t, byte) as int) <= byte,
        chars_within(t, byte) < t.len() ==> byte < byte_pos(t, chars_within(t, byte) as int + 1),
    decreases t.len(),
{
    lemma_pos_ends(t);
    if t.len() > 0 && utf8_len(t) > byte {
        let u = t.drop_last();
        lemma_chars_within(u, byte);
        let n = chars_within(u, byte) as int;
        assert(u.take(n) =~= t.take(n));
        if n < u.len() {
            assert(u.take(n + 1) =~= t.take(n + 1));
        } else {
            assert(t.take(n + 1) =~= t);
        }
    }
}

/// So many characters lie wholly before the start of one as there are before it.
pub proof fn lemma_chars_within_of_pos(t: Seq<char>, i: int)
    requires
        0 <= i <= t.len(),
    ensures
        chars_within(t, byte_pos(t, i) as int) == i,
{
    let n = chars_within(t, byte_pos(t, i) as int) as int;
    lemma_chars_within(t, byte_pos(t, i) as int);
    if n < i {
        lemma_pos_monotonic(t, n + 1, i);
    }
    if n > i {
        lemma_pos_monotonic(t, i, n);
    }
}

/// The character that a place of a change stands for: so many characters behind the start of its
/// line. The places of all other requests count UTF-16 units.
pub open spec fn place(t: Seq<char>, line: u32, character: u32) -> int {
    line_start(t, line as int) + character
}

/// Whether `range` lies in the text and is not reversed.
pub open spec fn range_fits(t: Seq<char>, range: Range) -> bool {
    &&& range.start.line <= line_count(t)
    &&& range.end.line <= line_count(t)
    &&& place(t, range.start.line, range.start.character) <= place(
        t,
        range.end.line,
        range.end.character,
    )
    &&& place(t, range.end.line, range.end.character) <= t.len()
}

/// A text with LF for each CR LF.
pub open spec fn unix_text(text: Seq<char>) -> Seq<char> {
    replaced_from(text, seq!['\r', '\n'], seq!['\n'], 0)
}

/// The text after `range` has been replaced.
pub open spec fn edited(t: Seq<char>, range: Range, text: Seq<char>) -> Seq<char> {
    t.take(place(t, range.start.line, range.start.character)) + unix_text(text) + t.skip(
        place(t, range.end.line, range.end.character),
    )
}

/// The text after all changes, each of which replaces a stretch.
pub open spec fn all_edited(t: Seq<char>, changes: Seq<ChangeView>) -> Seq<char>
    decreases changes.len(),
{
    if changes.len() == 0 {
        t
    } else {
        edited(
            all_edited(t, changes.drop_last()),
            changes.last().range->0,
            changes.last().text,
        )
    }
}

/// Whether each change replaces a stretch that lies in the text as the changes before have left
/// it.
pub open spec fn changes_fit(t: Seq<char>, changes: Seq<ChangeView>) -> bool
    decreases changes.len(),
{
    changes.len() > 0 ==> {
        &&& changes_fit(t, changes.drop_last())
        &&& changes.last().range is Some
        &&& range_fits(all_edited(t, changes.drop_last()), changes.last().range->0)
    }
}

/// The views of a list of changes.
pub open spec fn change_views(changes: Seq<ContentChange>) -> Seq<ChangeView> {
    changes.map_values(|c: ContentChange| c@)
}

pub(crate) fn to_unix(text: &str) -> (r: String)
    ensures
        r@ == unix_text(text@),
{
    proof {
        reveal_strlit("\r\n");
        reveal_strlit("\n");
        assert("\r\n"@ =~= seq!['\r', '\n']);
        assert("\n"@ =~= seq!['\n']);
    }
    replace(text, "\r\n", "\n")
}

fn fits(rope: &Rope, range: Range) -> (r: bool)
    ensures
        r == range_fits(rope_text(*rope), range),
{
    let count: usize = rope_len_lines(rope);
    if range.start.line as usize > count || range.end.line as usize > count {
        return false;
    }
    let ghost t = rope_text(*rope);
    proof {
        lemma_line_start(t, range.start.line as int);
        lemma_line_start(t, range.end.line as int);
    }
    let len: usize = rope_len_chars(rope);
    let start_line: usize = rope_line_to_char(rope, range.start.line as usize);
    let end_line: usize = rope_line_to_char(rope, range.end.line as usize);
    if range.end.character as usize > len - end_line {
        return false;
    }
    let end: usize = end_line + range.end.character as usize;
    if start_line > end {
        return false;
    }
    range.start.character as usize <= end - start_line
}

/// Replaces a stretch of the text.
pub(crate) fn edit(rope: &mut Rope, range: Range, text: &str)
    requires
        range_fits(rope_text(*old(rope)), range),
    ensures
        rope_text(*final(rope)) == edited(rope_text(*old(rope)), range, text@),
{
    let ghost t = rope_text(*rope);
    proof {
        lemma_line_start(t, range.start.line as int);
        lemma_line_start(t, range.end.line as int);
    }
    let len: usize = rope_len_chars(rope);
    let start: usize = rope_line_to_char(rope, range.start.line as usize)
        + range.start.character as usize;
    let end: usize = rope_line_to_char(rope, range.end.line as usize)
        + range.end.character as usize;
    rope_remove(rope, start, end);
    let ghost u = rope_text(*rope);
    let new_text = to_unix(text);
    rope_insert(rope, start, new_text.as_str());
    proof {
        assert(u.take(start as int) =~= t.take(start as int));
        assert(u.skip(start as int) =~= t.skip(end as int));
    }
}

/// Whether all changes can be made to a text, one after the other.
pub fn can_edit(rope: &Rope, changes: &Vec<ContentChange>) -> (r: bool)
    ensures
        r == changes_fit(rope_text(*rope), change_views(changes@)),
{
    let mut copy = rope_clone(rope);
    let ghost t = rope_text(*rope);
    let ghost views = change_views(changes@);
    let mut i: usize = 0;
    proof {
        assert(views.take(0) =~= Seq::<ChangeView>::empty());
    }
    while i < changes.len()
        invariant
            i <= changes.len(),
            t == rope_text(*rope),
            views == change_views(changes@),
            changes_fit(t, views.take(i as int)),
            rope_text(copy) == all_edited(t, views.take(i as int)),
        decreases changes.len() - i,
    {
        proof {
            assert(views.take(i + 1).drop_last() =~= views.take(i as int));
            lemma_changes_fit_prefix(t, views, i + 1);
        }
        match changes[i].range {
            Some(range) => {
                if !fits(&copy, range) {
                    return false;
                }
                edit(&mut copy, range, changes[i].text.as_str());
            },
            None => {
                return false;
            },
        }
        i += 1;
    }
    proof {
        assert(views.take(i as int) =~= views);
    }
    true
}

proof fn lemma_changes_fit_prefix(t: Seq<char>, changes: Seq<ChangeView>, n: int)
    requires
        0 <= n <= changes.len(),
    ensures
        changes_fit(t, changes) ==> changes_fit(t, changes.take(n)),
    decreases changes.len(),
{
    if n < changes.len() {
        lemma_changes_fit_prefix(t, changes.drop_last(), n);
        assert(changes.drop_last().take(n) =~= changes.take(n));
    } else {
        assert(changes.take(n) =~= changes);
    }
}

/// Makes all changes to a text, one after the other.
pub(crate) fn edit_all(rope: &mut Rope, changes: &Vec<ContentChange>)
    requires
        changes_fit(rope_text(*old(rope)), change_views(changes@)),
    ensures
        rope_text(*final(rope)) == all_edited(rope_text(*old(rope)), change_views(changes@)),
{
    let ghost t = rope_text(*rope);
    let ghost views = change_views(changes@);
    let mut i: usize = 0;
    proof {
        assert(views.take(0) =~= Seq::<ChangeView>::empty());
    }
    while i < changes.len()
        invariant
            i <= changes.len(),
            views == change_views(changes@),
            changes_fit(t, views),
            rope_text(*rope) == all_edited(t, views.take(i as int)),
        decreases changes.len() - i,
    {
        proof {
            assert(views.take(i + 1).drop_last() =~= views.take(i as int));
            lemma_changes_fit_prefix(t, views, i + 1);
        }
        if let Some(range) = changes[i].range {
            edit(rope, range, changes[i].text.as_str());
        }
        i += 1;
    }
    proof {
        assert(views.take(i as int) =~= views);
    }
}

/// An edit puts its text in the place of the stretch and leaves the rest as it was.
pub proof fn law_edit_keeps_rest(t: Seq<char>, range: Range, text: Seq<char>)
    requires
        range_fits(t, range),
    ensures
        ({
            let start = place(t, range.start.line, range.start.character);
            let end = place(t, range.end.line, range.end.character);
            let new_end = start + unix_text(text).len();
            &&& edited(t, range, text).take(start) == t.take(start)
            &&& edited(t, range, text).subrange(start, new_end) == unix_text(text)
            &&& edited(t, range, text).skip(new_end) == t.skip(end)
        }),
{
    let start = place(t, range.start.line, range.start.character);
    let end = place(t, range.end.line, range.end.character);
    let new_end = start + unix_text(text).len();
    lemma_line_start(t, range.start.line as int);
    let u = edited(t, range, text);
    assert(u.take(start) =~= t.take(start));
    assert(u.subrange(start, new_end) =~= unix_text(text));
    assert(u.skip(new_end) =~= t.skip(end));
}

/// An edit is undone by one that puts what stood there in the place of the new text, unless what
/// stood there has a CR LF.
pub proof fn law_edit_can_be_undone(t: Seq<char>, range: Range, text: Seq<char>, back: Range)
    requires
        range_fits(t, range),
        ({
            let start = place(t, range.start.line, range.start.character);
            let end = place(t, range.end.line, range.end.character);
            let u = edited(t, range, text);
            &&& place(u, back.start.line, back.start.character) == start
            &&& place(u, back.end.line, back.end.character) == start + unix_text(text).len()
            &&& matches_from(t.subrange(start, end), seq!['\r', '\n'], 0).len() == 0
        }),
    ensures
        ({
            let start = place(t, range.start.line, range.start.character);
            let end = place(t, range.end.line, range.end.character);
            edited(edited(t, range, text), back, t.subrange(start, end)) == t
        }),
{
    let start = place(t, range.start.line, range.start.character);
    let end = place(t, range.end.line, range.end.character);
    let gone = t.subrange(start, end);
    lemma_line_start(t, range.start.line as int);
    law_edit_keeps_rest(t, range, text);
    law_replace_absent(gone, seq!['\r', '\n'], seq!['\n'], 0);
    assert(gone.skip(0) =~= gone);
    assert(t.take(start) + gone + t.skip(end) =~= t);
}

/// Changes are made in order: to make the first ones and then the others is to make all.
pub proof fn law_changes_in_order(t: Seq<char>, first: Seq<ChangeView>, rest: Seq<ChangeView>)
    ensures
        all_edited(t, first + rest) == all_edited(all_edited(t, first), rest),
        changes_fit(t, first + rest) <==> changes_fit(t, first) && changes_fit(
            all_edited(t, first),
            rest,
        ),
    decreases rest.len(),
{
    if rest.len() > 0 {
        law_changes_in_order(t, first, rest.drop_last());
        assert((first + rest).drop_last() =~= first + rest.drop_last());
        assert((first + rest).last() == rest.last());
    } else {
        assert(first + rest =~= first);
    }
}

/// Whether line `k` of a text starts at character `s`: so many line ends stand before it, the last
/// of them directly. The line past the last starts at the end of the text.
pub open spec fn is_start_of_line(t: Seq<char>, k: int, s: int) -> bool {
    ||| 0 <= s <= t.len() && lines_ended(t, s) == k && (s == 0 || ends_line(t, s - 1))
    ||| s == t.len() && k == lines_ended(t, s) + 1
}

/// A line starts at one character only, directly behind the end of the line before it.
pub proof fn law_start_of_line(t: Seq<char>, k: int, s: int)
    requires
        0 <= k,
    ensures
        is_start_of_line(t, k, s) ==> line_start(t, k) == s && k <= line_count(t),
        k <= line_count(t) ==> is_start_of_line(t, k, line_start(t, k)),
{
    let a = line_start(t, k);
    lemma_line_start(t, k);
    if is_start_of_line(t, k, s) {
        lemma_lines_ended(t, s, t.len() as int);
        if a < s {
            lemma_lines_ended(t, a, s - 1);
        }
        if s < a {
            assert(lines_ended(t, s) < k);
        }
    }
    if k < line_count(t) && a > 0 {
        assert(lines_ended(t, a - 1) < k);
    }
}

/// A change keeps the characters of the text up to the place at which it starts, so many behind
/// the start of its line as the place says, and those from the place on at which it ends. Its own
/// text stands between them.
pub proof fn law_edit_at_characters(
    t: Seq<char>,
    range: Range,
    text: Seq<char>,
    start_of_first: int,
    start_of_last: int,
)
    requires
        is_start_of_line(t, range.start.line as int, start_of_first),
        is_start_of_line(t, range.end.line as int, start_of_last),
        start_of_first + range.start.character <= start_of_last + range.end.character <= t.len(),
    ensures
        range_fits(t, range),
        ({
            let start = start_of_first + range.start.character;
            let end = start_of_last + range.end.character;
            &&& edited(t, range, text) == t.take(start) + unix_text(text) + t.skip(end)
            &&& edited(t, range, text).take(start) == t.take(start)
            &&& edited(t, range, text).skip(start + unix_text(text).len()) == t.skip(end)
        }),
{
    law_start_of_line(t, range.start.line as int, start_of_first);
    law_start_of_line(t, range.end.line as int, start_of_last);
    law_edit_keeps_rest(t, range, text);
}

/// A change fits exactly if its places lie in the text and the one at which it starts is not
/// behind the other.
pub proof fn law_change_fits(t: Seq<char>, range: Range, start_of_first: int, start_of_last: int)
    requires
        is_start_of_line(t, range.start.line as int, start_of_first),
        is_start_of_line(t, range.end.line as int, start_of_last),
    ensures
        range_fits(t, range) <==> start_of_first + range.start.character <= start_of_last
            + range.end.character <= t.len(),
{
    law_start_of_line(t, range.start.line as int, start_of_first);
    law_start_of_line(t, range.end.line as int, start_of_last);
}

/// A change at a line that the text does not have is refused.
pub proof fn law_line_beyond_text_is_refused(t: Seq<char>, range: Range)
    requires
        range.start.line > lines_ended(t, t.len() as int) + 1 || range.end.line > lines_ended(
            t,
            t.len() as int,
        ) + 1,
    ensures
        !range_fits(t, range),
{
}

proof fn lemma_crlf(t: Seq<char>, i: int)
    ensures
        matches_at(t, seq!['\r', '\n'], i) <==> 0 <= i && i + 1 < t.len() && t[i] == '\r' && t[i
            + 1] == '\n',
{
    let crlf = seq!['\r', '\n'];
    if 0 <= i && i + 1 < t.len() {
        let pair = t.subrange(i, i + 2);
        assert(pair[0] == t[i] && pair[1] == t[i + 1]);
        if t[i] == '\r' && t[i + 1] == '\n' {
            assert(pair =~= crlf);
        }
        if pair == crlf {
            assert(crlf[0] == '\r' && crlf[1] == '\n');
        }
    }
}

proof fn lemma_unix_text_from(before: Seq<char>, after: Seq<char>, i: int)
    requires
        0 <= i <= before.len(),
    ensures
        ({
            let crlf = seq!['\r', '\n'];
            let lf = seq!['\n'];
            replaced_from(before + crlf + after, crlf, lf, i) == replaced_from(before, crlf, lf, i)
                + lf + unix_text(after)
        }),
    decreases before.len() - i,
{
    let crlf = seq!['\r', '\n'];
    let lf = seq!['\n'];
    let t = before + crlf + after;
    let n = before.len() as int;
    lemma_crlf(t, i);
    lemma_crlf(before, i);
    if i == n {
        assert(t.skip(n + 2) =~= after);
        lemma_replaced_of_rest(t, after, crlf, lf, n + 2, 0);
        assert(replaced_from(before, crlf, lf, n + 1) =~= Seq::<char>::empty());
        assert(replaced_from(before, crlf, lf, n) =~= Seq::<char>::empty());
        assert(replaced_from(t, crlf, lf, n) =~= replaced_from(before, crlf, lf, n) + lf
            + unix_text(after));
    } else if matches_at(before, crlf, i) {
        lemma_unix_text_from(before, after, i + 2);
        assert(replaced_from(t, crlf, lf, i) =~= replaced_from(before, crlf, lf, i) + lf
            + unix_text(after));
    } else {
        lemma_unix_text_from(before, after, i + 1);
        assert(t.subrange(i, i + 1) =~= before.subrange(i, i + 1));
        assert(replaced_from(t, crlf, lf, i) =~= replaced_from(before, crlf, lf, i) + lf
            + unix_text(after));
    }
}

/// Each CR LF of a text becomes an LF, and what stands before and behind it is treated alike.
pub proof fn law_line_ends_become_unix(before: Seq<char>, after: Seq<char>)
    ensures
        unix_text(before + seq!['\r', '\n'] + after) == unix_text(before) + seq!['\n'] + unix_text(
            after,
        ),
{
    lemma_unix_text_from(before, after, 0);
}

/// A text without CR LF is taken as it is.
pub proof fn law_unix_text_is_kept(text: Seq<char>)
    requires
        forall|i: int|
            0 <= i < text.len() - 1 && text[i] == '\r' ==> #[trigger] text[i + 1] != '\n',
    ensures
        unix_text(text) == text,
{
    let crlf = seq!['\r', '\n'];
    assert forall|i: int| !#[trigger] matches_at(text, crlf, i) by {
        lemma_crlf(text, i);
        if 0 <= i < text.len() - 1 && text[i] == '\r' {
            assert(text[i + 1] != '\n');
        }
    }
    lemma_no_match(text, crlf);
    law_replace_absent(text, crlf, seq!['\n'], 0);
    assert(text.skip(0) =~= text);
}

/// No change leaves a text as it is, and one change is the edit that it describes.
pub proof fn law_single_change(t: Seq<char>, range: Range, text: Seq<char>)
    ensures
        all_edited(t, seq![]) == t,
        changes_fit(t, seq![]),
        all_edited(t, seq![ChangeView { range: Some(range), text }]) == edited(t, range, text),
        changes_fit(t, seq![ChangeView { range: Some(range), text }]) <==> range_fits(t, range),
        !changes_fit(t, seq![ChangeView { range: None, text }]),
{
    let one = seq![ChangeView { range: Some(range), text }];
    assert(one.drop_last() =~= Seq::<ChangeView>::empty());
    assert(all_edited(t, one.drop_last()) == t);
    assert(changes_fit(t, one.drop_last()));
}

/// These characters end a line, and no others.
pub proof fn law_line_breaks(c: char)
    ensures
        is_line_break(c) <==> c == '\n' || c == '\u{b}' || c == '\u{c}' || c == '\r' || c
            == '\u{85}' || c == '\u{2028}' || c == '\u{2029}',
{
}

/// Where line feeds are the only line breaks of a text, so many lines are ended as there are line
/// feeds.
pub proof fn law_line_feeds_end_lines(t: Seq<char>, i: int)
    requires
        0 <= i <= t.len(),
        forall|k: int|
            0 <= k < t.len() ==> #[trigger] t[k] != '\u{b}' && t[k] != '\u{c}' && t[k] != '\r'
                && t[k] != '\u{85}' && t[k] != '\u{2028}' && t[k] != '\u{2029}',
    ensures
        lines_ended(t, i) == line_feeds(t.take(i)),
    decreases i,
{
    reveal(Seq::filter);
    if i > 0 {
        law_line_feeds_end_lines(t, i - 1);
        law_line_breaks(t[i - 1]);
        assert(t.take(i).drop_last() =~= t.take(i - 1));
        assert(t.take(i).last() == t[i - 1]);
    }
}

/// Changes are taken as they are, one by one.
pub proof fn law_changes_are_taken_as_they_are(changes: Seq<ContentChange>, i: int)
    requires
        0 <= i < changes.len(),
    ensures
        change_views(changes).len() == changes.len(),
        change_views(changes)[i].range == changes[i].range,
        change_views(changes)[i].text == changes[i].text@,
{
}

} // verus!
