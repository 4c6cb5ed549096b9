//! Offsets into a line of text, counted in characters, UTF-8 bytes or UTF-16 units.

use vstd::prelude::*;
use vstd::utf8::*;

verus! {

/// The number of bytes that `c` takes in UTF-8.
pub open spec fn width8(c: char) -> nat {
    if c as u32 <= 0x7f {
        1
    } else if c as u32 <= 0x7ff {
        2
    } else if c as u32 <= 0xffff {
        3
    } else {
        4
    }
}

/// The number of code units that `c` takes in UTF-16.
pub open spec fn width16(c: char) -> nat {
    if c as u32 <= 0xffff {
        1
    } else {
        2
    }
}

/// The length of `s` in UTF-8 bytes.
pub open spec fn utf8_len(s: Seq<char>) -> nat
    decreases s.len(),
{
    if s.len() == 0 {
        0
    } else {
        utf8_len(s.drop_last()) + width8(s.last())
    }
}

/// The length of `s` in UTF-16 code units.
pub open spec fn utf16_len(s: Seq<char>) -> nat
    decreases s.len(),
{
    if s.len() == 0 {
        0
    } else {
        utf16_len(s.drop_last()) + width16(s.last())
    }
}

/// The byte at which character `i` of `s` starts.
pub open spec fn byte_pos(s: Seq<char>, i: int) -> nat {
    utf8_len(s.take(i))
}

/// The UTF-16 unit at which character `i` of `s` starts.
pub open spec fn unit_pos(s: Seq<char>, i: int) -> nat {
    utf16_len(s.take(i))
}

/// The number of characters of `s` that start before UTF-16 unit `unit`.
pub open spec fn chars_before_unit(s: Seq<char>, unit: int) -> nat
    decreases s.len(),
{
    if s.len() == 0 {
        0
    } else if utf16_len(s.drop_last()) < unit {
        s.len()
    } else {
        chars_before_unit(s.drop_last(), unit)
    }
}

/// The number of characters of `s` that start before byte `byte`.
pub open spec fn chars_before_byte(s: Seq<char>, byte: int) -> nat
    decreases s.len(),
{
    if s.len() == 0 {
        0
    } else if utf8_len(s.drop_last()) < byte {
        s.len()
    } else {
        chars_before_byte(s.drop_last(), byte)
    }
}

pub proof fn lemma_encode_char(c: char)
    ensures
        encode_utf8(seq![c]).len() == width8(c),
{
    broadcast use char_is_scalar;

    reveal_with_fuel(encode_utf8, 2);
    assert(seq![c].drop_first() =~= Seq::<char>::empty());
}

pub proof fn lemma_encode_concat(a: Seq<char>, b: Seq<char>)
    ensures
        encode_utf8(a + b) == encode_utf8(a) + encode_utf8(b),
    decreases a.len(),
{
    if a.len() == 0 {
        assert(a + b =~= b);
        assert(encode_utf8(a) =~= Seq::<u8>::empty());
    } else {
        assert((a + b).drop_first() =~= a.drop_first() + b);
        lemma_encode_concat(a.drop_first(), b);
        assert(encode_utf8(a + b) =~= encode_utf8(a) + encode_utf8(b));
    }
}

pub proof fn lemma_utf8_len(s: Seq<char>)
    ensures
        encode_utf8(s).len() == utf8_len(s),
    decreases s.len(),
{
    if s.len() != 0 {
        lemma_utf8_len(s.drop_last());
        lemma_encode_char(s.last());
        lemma_encode_concat(s.drop_last(), seq![s.last()]);
        assert(s.drop_last() + seq![s.last()] =~= s);
    }
}

pub proof fn lemma_utf8_len_concat(a: Seq<char>, b: Seq<char>)
    ensures
        utf8_len(a + b) == utf8_len(a) + utf8_len(b),
{
    lemma_utf8_len(a);
    lemma_utf8_len(b);
    lemma_utf8_len(a + b);
    lemma_encode_concat(a, b);
}

/// There are no more characters than bytes.
pub proof fn lemma_chars_in_bytes(s: Seq<char>)
    ensures
        s.len() <= utf8_len(s),
    decreases s.len(),
{
    if s.len() > 0 {
        lemma_chars_in_bytes(s.drop_last());
    }
}

/// Where the next character starts.
pub proof fn lemma_pos_step(s: Seq<char>, i: int)
    requires
        0 <= i < s.len(),
    ensures
        byte_pos(s, i + 1) == byte_pos(s, i) + width8(s[i]),
        unit_pos(s, i + 1) == unit_pos(s, i) + width16(s[i]),
{
    assert(s.take(i + 1).drop_last() =~= s.take(i));
}

pub proof fn lemma_pos_ends(s: Seq<char>)
    ensures
        byte_pos(s, 0) == 0,
        unit_pos(s, 0) == 0,
        byte_pos(s, s.len() as int) == utf8_len(s),
        unit_pos(s, s.len() as int) == utf16_len(s),
{
    assert(s.take(0) =~= Seq::<char>::empty());
    assert(s.take(s.len() as int) =~= s);
}

/// Later characters start later, in bytes and in units.
pub proof fn lemma_pos_monotonic(s: Seq<char>, i: int, j: int)
    requires
        0 <= i <= j <= s.len(),
    ensures
        byte_pos(s, i) + (j - i) <= byte_pos(s, j),
        unit_pos(s, i) + (j - i) <= unit_pos(s, j),
        unit_pos(s, j) - unit_pos(s, i) <= byte_pos(s, j) - byte_pos(s, i),
    decreases j - i,
{
    if i < j {
        lemma_pos_monotonic(s, i, j - 1);
        lemma_pos_step(s, j - 1);
    }
}

/// The bytes of a stretch of characters are those between its ends.
pub proof fn lemma_subrange_len(s: Seq<char>, i: int, j: int)
    requires
        0 <= i <= j <= s.len(),
    ensures
        utf8_len(s.subrange(i, j)) == byte_pos(s, j) - byte_pos(s, i),
{
    assert(s.take(i) + s.subrange(i, j) =~= s.take(j));
    lemma_utf8_len_concat(s.take(i), s.subrange(i, j));
}

/// `chars_before_unit` and `chars_before_byte` as the index at which a scan stops.
pub proof fn lemma_chars_before(s: Seq<char>, n: int, at: int)
    requires
        0 <= n <= s.len(),
    ensures
        (n == 0 || unit_pos(s, n - 1) < at) && (n == s.len() || unit_pos(s, n) >= at)
            ==> chars_before_unit(s, at) == n,
        (n == 0 || byte_pos(s, n - 1) < at) && (n == s.len() || byte_pos(s, n) >= at)
            ==> chars_before_byte(s, at) == n,
    decreases s.len(),
{
    if s.len() > 0 {
        let t = s.drop_last();
        assert(s.take(s.len() - 1) =~= t);
        if n < s.len() {
            assert(t.take(n) =~= s.take(n));
            if n > 0 {
                assert(t.take(n - 1) =~= s.take(n - 1));
            }
            lemma_chars_before(t, n, at);
            lemma_pos_monotonic(s, n, s.len() - 1);
        }
    }
}

/// Both counts are lengths of a prefix.
pub proof fn lemma_chars_before_bound(s: Seq<char>, at: int)
    ensures
        chars_before_unit(s, at) <= s.len(),
        chars_before_byte(s, at) <= s.len(),
    decreases s.len(),
{
    if s.len() > 0 {
        lemma_chars_before_bound(s.drop_last(), at);
    }
}

/// The byte length of a string fits in `usize`.
pub fn byte_len(s: &str) -> (n: usize)
    ensures
        n == utf8_len(s@),
{
    proof {
        lemma_utf8_len(s@);
    }
    s.as_bytes().len()
}

/// `char::len_utf8`.
pub fn len_utf8(c: char) -> (n: usize)
    ensures
        n == width8(c),
{
    let code: u32 = c as u32;
    if code <= 0x7f {
        1
    } else if code <= 0x7ff {
        2
    } else if code <= 0xffff {
        3
    } else {
        4
    }
}

/// `char::len_utf16`.
pub fn len_utf16(c: char) -> (n: usize)
    ensures
        n == width16(c),
{
    let code: u32 = c as u32;
    if code <= 0xffff {
        1
    } else {
        2
    }
}

/// Whether byte `at` is the start of a character of `s`, or its end.
pub open spec fn on_char(s: Seq<char>, at: int) -> bool {
    byte_pos(s, chars_before_byte(s, at) as int) == at
}

/// The start of character `i` is the start of a character, and of none but `i`.
pub proof fn lemma_on_char(s: Seq<char>, i: int)
    requires
        0 <= i <= s.len(),
    ensures
        on_char(s, byte_pos(s, i) as int),
        chars_before_byte(s, byte_pos(s, i) as int) == i,
        byte_pos(s, i) <= utf8_len(s),
{
    if i > 0 {
        lemma_pos_monotonic(s, i - 1, i);
    }
    lemma_pos_monotonic(s, i, s.len() as int);
    lemma_pos_ends(s);
    lemma_chars_before(s, i, byte_pos(s, i) as int);
}

proof fn lemma_boundary_after(a: Seq<char>, b: Seq<char>)
    ensures
        is_char_boundary(encode_utf8(a + b), utf8_len(a) as int),
    decreases a.len(),
{
    let bytes = encode_utf8(a + b);
    encode_utf8_valid_utf8(a + b);
    lemma_utf8_len(a + b);
    lemma_utf8_len_concat(a, b);
    if a.len() > 0 {
        encode_utf8_first_scalar(a + b);
        assert((a + b).drop_first() =~= a.drop_first() + b);
        assert(pop_first_scalar(bytes) =~= encode_utf8(a.drop_first() + b));
        lemma_boundary_after(a.drop_first(), b);
        lemma_utf8_len_concat(seq![a[0]], a.drop_first());
        assert(seq![a[0]] + a.drop_first() =~= a);
        lemma_utf8_len(seq![a[0]]);
        reveal_with_fuel(encode_utf8, 2);
        assert(seq![a[0]].drop_first() =~= Seq::<char>::empty());
        lemma_encode_char(a[0]);
    }
}

/// Splits a string at the start of a character (`str::split_at`).
pub fn split_at_char(s: &str, at: usize) -> (r: (&str, &str))
    requires
        on_char(s@, at as int),
    ensures
        r.0@ == s@.take(chars_before_byte(s@, at as int) as int),
        r.1@ == s@.skip(chars_before_byte(s@, at as int) as int),
{
    let ghost n = chars_before_byte(s@, at as int) as int;
    let ghost a = s@.take(n);
    let ghost b = s@.skip(n);
    proof {
        lemma_chars_before_bound(s@, at as int);
        assert(a + b =~= s@);
        lemma_boundary_after(a, b);
    }
    let r = s.split_at(at);
    proof {
        lemma_encode_concat(a, b);
        lemma_utf8_len(a);
        lemma_utf8_len(b);
        assert(encode_utf8(r.0@) =~= encode_utf8(a));
        assert(encode_utf8(r.1@) =~= encode_utf8(b));
        encode_utf8_decode_utf8(r.0@);
        encode_utf8_decode_utf8(r.1@);
        encode_utf8_decode_utf8(a);
        encode_utf8_decode_utf8(b);
    }
    r
}

/// The characters of `s` from byte `start` to byte `end`.
pub fn slice(s: &str, start: usize, end: usize) -> (r: &str)
    requires
        start <= end,
        on_char(s@, start as int),
        on_char(s@, end as int),
    ensures
        r@ == s@.subrange(
            chars_before_byte(s@, start as int) as int,
            chars_before_byte(s@, end as int) as int,
        ),
{
    let ghost i = chars_before_byte(s@, start as int) as int;
    let ghost j = chars_before_byte(s@, end as int) as int;
    proof {
        lemma_chars_before_bound(s@, start as int);
        lemma_chars_before_bound(s@, end as int);
        lemma_chars_before_order(s@, start as int, end as int);
    }
    let head = split_at_char(s, end).0;
    proof {
        assert(head@.take(i) =~= s@.take(i));
        lemma_on_char(head@, i);
    }
    let r = split_at_char(head, start).1;
    proof {
        assert(r@ =~= s@.subrange(i, j));
    }
    r
}

/// The byte at which character `n` of `s` starts.
pub fn char_offset(s: &str, n: usize) -> (r: usize)
    requires
        n <= s@.len(),
    ensures
        r == byte_pos(s@, n as int),
{
    let total: usize = byte_len(s);
    let mut r: usize = 0;
    let mut i: usize = 0;
    proof {
        lemma_pos_ends(s@);
    }
    for c in it: s.chars()
        invariant
            it.seq() == s@,
            n <= s@.len(),
            total == byte_pos(s@, s@.len() as int),
            i == it.index() <= total,
            r == byte_pos(
                s@,
                if i <= n {
                    i as int
                } else {
                    n as int
                },
            ),
    {
        proof {
            lemma_pos_step(s@, it.index() as int);
            lemma_pos_monotonic(s@, 0, it.index() + 1);
            lemma_pos_monotonic(s@, it.index() + 1, s@.len() as int);
        }
        if i < n {
            r += len_utf8(c);
        }
        i += 1;
    }
    r
}

/// The byte offset of the first character that starts at or after UTF-16 unit
/// `utf16_offset`, or the length of `s` where there is none.
pub fn utf16_offset_to_utf8(s: &str, utf16_offset: usize) -> (r: Option<usize>)
    ensures
        r is Some,
        r->0 == byte_pos(s@, chars_before_unit(s@, utf16_offset as int) as int),
{
    let total: usize = byte_len(s);
    let mut utf16_count: usize = 0;
    let mut utf8_offset: usize = 0;
    proof {
        lemma_pos_ends(s@);
    }
    for ch in it: s.chars()
        invariant
            it.seq() == s@,
            total == byte_pos(s@, s@.len() as int),
            utf16_count == unit_pos(s@, it.index()),
            utf8_offset == byte_pos(s@, it.index()),
            forall|j: int| 0 <= j < it.index() ==> #[trigger] unit_pos(s@, j) < utf16_offset,
    {
        let ghost i = it.index();
        if utf16_count >= utf16_offset {
            proof {
                lemma_chars_before(s@, i, utf16_offset as int);
                if i > 0 {
                    assert(unit_pos(s@, i - 1) < utf16_offset);
                }
            }
            return Some(utf8_offset);
        }
        proof {
            lemma_pos_ends(s@);
            lemma_pos_step(s@, i);
            lemma_pos_monotonic(s@, i + 1, s@.len() as int);
            lemma_pos_monotonic(s@, 0, i + 1);
        }
        utf16_count += len_utf16(ch);
        utf8_offset += len_utf8(ch);
    }
    proof {
        let n = s@.len() as int;
        if n > 0 {
            assert(unit_pos(s@, n - 1) < utf16_offset);
        }
        lemma_chars_before(s@, n, utf16_offset as int);
    }
    Some(total)
}

/// The UTF-16 length of the characters that start before byte `utf8_offset`, or `None` where
/// the offset lies beyond the end of `s`.
pub fn utf8_offset_to_utf16(s: &str, utf8_offset: usize) -> (r: Option<usize>)
    ensures
        r is Some <==> utf8_offset <= utf8_len(s@),
        r is Some ==> r->0 == unit_pos(s@, chars_before_byte(s@, utf8_offset as int) as int),
{
    let total: usize = byte_len(s);
    if utf8_offset > total {
        return None;
    }
    let mut utf16_offset: usize = 0;
    let mut byte_idx: usize = 0;
    proof {
        lemma_pos_ends(s@);
    }
    for ch in it: s.chars()
        invariant
            it.seq() == s@,
            total == byte_pos(s@, s@.len() as int),
            total == utf8_len(s@),
            utf8_offset <= total,
            utf16_offset == unit_pos(s@, it.index()),
            byte_idx == byte_pos(s@, it.index()),
            forall|j: int| 0 <= j < it.index() ==> #[trigger] byte_pos(s@, j) < utf8_offset,
    {
        let ghost i = it.index();
        if byte_idx >= utf8_offset {
            proof {
                lemma_chars_before(s@, i, utf8_offset as int);
                if i > 0 {
                    assert(byte_pos(s@, i - 1) < utf8_offset);
                }
            }
            return Some(utf16_offset);
        }
        proof {
            lemma_pos_ends(s@);
            lemma_pos_step(s@, i);
            lemma_pos_monotonic(s@, i + 1, s@.len() as int);
            lemma_pos_monotonic(s@, 0, i + 1);
        }
        utf16_offset += len_utf16(ch);
        byte_idx += len_utf8(ch);
    }
    proof {
        let n = s@.len() as int;
        if n > 0 {
            assert(byte_pos(s@, n - 1) < utf8_offset);
        }
        lemma_chars_before(s@, n, utf8_offset as int);
    }
    Some(utf16_offset)
}

/// At the start of a character the two conversions agree, and each undoes the other.
pub proof fn law_offsets_round_trip(s: Seq<char>, i: int)
    requires
        0 <= i <= s.len(),
    ensures
        byte_pos(s, chars_before_unit(s, unit_pos(s, i) as int) as int) == byte_pos(s, i),
        unit_pos(s, chars_before_byte(s, byte_pos(s, i) as int) as int) == unit_pos(s, i),
        unit_pos(
            s,
            chars_before_byte(
                s,
                byte_pos(s, chars_before_unit(s, unit_pos(s, i) as int) as int) as int,
            ) as int,
        ) == unit_pos(s, i),
        byte_pos(
            s,
            chars_before_unit(
                s,
                unit_pos(s, chars_before_byte(s, byte_pos(s, i) as int) as int) as int,
            ) as int,
        ) == byte_pos(s, i),
{
    if i > 0 {
        lemma_pos_monotonic(s, i - 1, i);
    }
    lemma_chars_before(s, i, unit_pos(s, i) as int);
    lemma_chars_before(s, i, byte_pos(s, i) as int);
}

/// A later UTF-16 offset never converts to an earlier byte, nor the other way round.
pub proof fn law_offsets_monotonic(s: Seq<char>, a: int, b: int)
    requires
        a <= b,
    ensures
        byte_pos(s, chars_before_unit(s, a) as int) <= byte_pos(s, chars_before_unit(s, b) as int),
        unit_pos(s, chars_before_byte(s, a) as int) <= unit_pos(s, chars_before_byte(s, b) as int),
{
    lemma_chars_before_order(s, a, b);
    lemma_chars_before_bound(s, b);
    lemma_pos_monotonic(s, chars_before_unit(s, a) as int, chars_before_unit(s, b) as int);
    lemma_pos_monotonic(s, chars_before_byte(s, a) as int, chars_before_byte(s, b) as int);
}

proof fn lemma_chars_before_order(s: Seq<char>, a: int, b: int)
    requires
        a <= b,
    ensures
        chars_before_unit(s, a) <= chars_before_unit(s, b),
        chars_before_byte(s, a) <= chars_before_byte(s, b),
    decreases s.len(),
{
    if s.len() > 0 {
        lemma_chars_before_order(s.drop_last(), a, b);
        lemma_chars_before_bound(s.drop_last(), a);
    }
}

/// A place in bytes counts those of the UTF-8 encoding of what stands before it. A place in UTF-16
/// units counts the characters before it, and once more those beyond the first 2^16 codes.
pub proof fn law_offsets_count(s: Seq<char>, i: int)
    requires
        0 <= i <= s.len(),
    ensures
        byte_pos(s, i) == encode_utf8(s.take(i)).len(),
        unit_pos(s, i) == i + s.take(i).filter(|c: char| c as u32 > 0xffff).len(),
    decreases i,
{
    let wide = |c: char| c as u32 > 0xffff;
    lemma_utf8_len(s.take(i));
    lemma_pos_ends(s);
    if i > 0 {
        law_offsets_count(s, i - 1);
        lemma_pos_step(s, i - 1);
        assert(s.take(i).drop_last() =~= s.take(i - 1));
        assert(s.take(i).last() == s[i - 1]);
    }
    reveal(Seq::filter);
}

/// An ASCII text has as many bytes and as many UTF-16 units as characters.
pub proof fn law_ascii_offsets(s: Seq<char>)
    requires
        is_ascii_chars(s),
    ensures
        utf8_len(s) == s.len(),
        utf16_len(s) == s.len(),
    decreases s.len(),
{
    if s.len() > 0 {
        assert(is_ascii_chars(s.drop_last()));
        law_ascii_offsets(s.drop_last());
        assert('\0' <= s[s.len() - 1] <= '\u{7f}');
    }
}

/// An offset in UTF-16 units stands for the first character that starts at or behind it, or for
/// the end of the text; so does an offset in bytes.
pub proof fn law_offset_of_char(s: Seq<char>, at: int, k: int)
    requires
        0 <= k < s.len(),
    ensures
        k < chars_before_unit(s, at) <==> unit_pos(s, k) < at,
        k < chars_before_byte(s, at) <==> byte_pos(s, k) < at,
        chars_before_unit(s, at) <= s.len(),
        chars_before_byte(s, at) <= s.len(),
    decreases s.len(),
{
    let t = s.drop_last();
    assert(s.take(s.len() - 1) =~= t);
    lemma_chars_before_bound(s, at);
    lemma_chars_before_bound(t, at);
    lemma_pos_monotonic(s, k, s.len() - 1);
    if k < s.len() - 1 {
        assert(t.take(k) =~= s.take(k));
        law_offset_of_char(t, at, k);
    }
}

} // verus!
