//! Searching in the bytes of a text and taking parts of it.

use crate::chars::{chars_of, string_of};
use crate::text::texts;
use vstd::prelude::*;
use vstd::string::*;
use vstd::utf8::*;

verus! {

/// The needle stands at this position.
pub open spec fn matches_at(hay: Seq<u8>, needle: Seq<u8>, at: int) -> bool {
    0 <= at && at + needle.len() <= hay.len() && hay.subrange(at, at + needle.len()) == needle
}

/// The first position from `from` on at which the needle stands and ends by
/// `to`.
pub open spec fn first_in(hay: Seq<u8>, needle: Seq<u8>, from: int, to: int) -> Option<int>
    decreases to + 1 - from,
{
    if from + needle.len() > to || from > to {
        None
    } else if matches_at(hay, needle, from) {
        Some(from)
    } else {
        first_in(hay, needle, from + 1, to)
    }
}

/// What the first place of a needle is.
pub proof fn lemma_first_in_found(hay: Seq<u8>, needle: Seq<u8>, from: int, to: int)
    requires
        0 <= from,
        to <= hay.len(),
    ensures
        match first_in(hay, needle, from, to) {
            Some(at) => from <= at && at + needle.len() <= to && matches_at(hay, needle, at)
                && forall|p: int| from <= p < at ==> !matches_at(hay, needle, p),
            None => forall|p: int|
                from <= p && p + needle.len() <= to ==> !matches_at(hay, needle, p),
        },
    decreases to + 1 - from,
{
    if !(from + needle.len() > to || from > to) && !matches_at(hay, needle, from) {
        lemma_first_in_found(hay, needle, from + 1, to);
    }
}

/// A place of the needle with none before it is the first.
pub proof fn lemma_first_in_is(hay: Seq<u8>, needle: Seq<u8>, from: int, to: int, at: int)
    requires
        0 <= from <= at,
        at + needle.len() <= to <= hay.len(),
        matches_at(hay, needle, at),
        forall|p: int| from <= p < at ==> !matches_at(hay, needle, p),
    ensures
        first_in(hay, needle, from, to) == Some(at),
    decreases at - from,
{
    if from < at {
        lemma_first_in_is(hay, needle, from + 1, to, at);
    }
}

/// The first position from `from` on, below `to`, that holds this byte.
pub open spec fn first_byte(hay: Seq<u8>, byte: u8, from: int, to: int) -> Option<int>
    decreases to - from,
{
    if from >= to {
        None
    } else if hay[from] == byte {
        Some(from)
    } else {
        first_byte(hay, byte, from + 1, to)
    }
}

/// Where the spaces and tabs from a position on end, at `to` at the latest.
pub open spec fn blanks_end(bytes: Seq<u8>, from: int, to: int) -> int
    decreases to - from,
{
    if from < to && (bytes[from] == 32 || bytes[from] == 9) {
        blanks_end(bytes, from + 1, to)
    } else {
        from
    }
}

/// Finds where the spaces and tabs from a position on end.
pub fn find_blanks_end(bytes: &[u8], from: usize, to: usize) -> (res: usize)
    requires
        from <= to <= bytes@.len(),
    ensures
        res == blanks_end(bytes@, from as int, to as int),
        from <= res <= to,
        forall|i: int| from <= i < res ==> (#[trigger] bytes@[i] == 32 || bytes@[i] == 9),
{
    let mut at: usize = from;
    while at < to && (bytes[at] == 32 || bytes[at] == 9)
        invariant
            from <= at <= to <= bytes@.len(),
            blanks_end(bytes@, from as int, to as int) == blanks_end(bytes@, at as int, to as int),
            forall|i: int| from <= i < at ==> (#[trigger] bytes@[i] == 32 || bytes@[i] == 9),
        decreases to - at,
    {
        at += 1;
    }
    at
}

/// What the spaces and tabs from a position on are.
pub proof fn lemma_blanks(bytes: Seq<u8>, from: int, to: int)
    requires
        0 <= from <= to <= bytes.len(),
    ensures
        from <= blanks_end(bytes, from, to) <= to,
        forall|i: int|
            from <= i < blanks_end(bytes, from, to) ==> (#[trigger] bytes[i] == 32 || bytes[i]
                == 9),
    decreases to - from,
{
    if from < to && (bytes[from] == 32 || bytes[from] == 9) {
        lemma_blanks(bytes, from + 1, to);
    }
}

/// The last position from `from` on, below `to`, that holds this byte.
pub open spec fn last_byte(hay: Seq<u8>, byte: u8, from: int, to: int) -> Option<int>
    decreases to - from,
{
    if to <= from {
        None
    } else if hay[to - 1] == byte {
        Some(to - 1)
    } else {
        last_byte(hay, byte, from, to - 1)
    }
}

fn stands_at(hay: &[u8], needle: &[u8], at: usize) -> (res: bool)
    requires
        at + needle@.len() <= hay@.len(),
    ensures
        res == matches_at(hay@, needle@, at as int),
{
    let ghost part = hay@.subrange(at as int, at + needle@.len());
    let count: usize = hay.len();
    let mut i: usize = 0;
    while i < needle.len()
        invariant
            i <= needle@.len(),
            count == hay@.len(),
            at + needle@.len() <= count,
            part == hay@.subrange(at as int, at + needle@.len()),
            forall|j: int| 0 <= j < i ==> part[j] == needle@[j],
        decreases needle@.len() - i,
    {
        assert(part[i as int] == hay@[at + i]);
        if hay[at + i] != needle[i] {
            return false;
        }
        i += 1;
    }
    assert(part =~= needle@);
    true
}

/// Finds the first place of a needle in a range.
pub fn find_in(hay: &[u8], needle: &[u8], from: usize, to: usize) -> (res: Option<usize>)
    requires
        from <= to <= hay@.len(),
        needle@.len() > 0,
    ensures
        match res {
            Some(at) => first_in(hay@, needle@, from as int, to as int) == Some(at as int) && from
                <= at && at + needle@.len() <= to && matches_at(hay@, needle@, at as int),
            None => first_in(hay@, needle@, from as int, to as int) is None,
        },
{
    let mut at: usize = from;
    while needle.len() <= to - at
        invariant
            from <= at <= to,
            to <= hay@.len(),
            needle@.len() > 0,
            first_in(hay@, needle@, from as int, to as int) == first_in(
                hay@,
                needle@,
                at as int,
                to as int,
            ),
        decreases to - at,
    {
        if stands_at(hay, needle, at) {
            return Some(at);
        }
        at += 1;
    }
    None
}

/// Finds the first place of a byte in a range.
pub fn find_byte(hay: &[u8], byte: u8, from: usize, to: usize) -> (res: Option<usize>)
    requires
        from <= to <= hay@.len(),
    ensures
        match res {
            Some(at) => first_byte(hay@, byte, from as int, to as int) == Some(at as int) && from
                <= at < to && hay@[at as int] == byte,
            None => first_byte(hay@, byte, from as int, to as int) is None,
        },
{
    let mut at: usize = from;
    while at < to
        invariant
            from <= at <= to,
            to <= hay@.len(),
            first_byte(hay@, byte, from as int, to as int) == first_byte(
                hay@,
                byte,
                at as int,
                to as int,
            ),
        decreases to - at,
    {
        if hay[at] == byte {
            return Some(at);
        }
        at += 1;
    }
    None
}

/// Finds the last place of a byte in a range.
pub fn find_last_byte(hay: &[u8], byte: u8, from: usize, to: usize) -> (res: Option<usize>)
    requires
        from <= to <= hay@.len(),
    ensures
        match res {
            Some(at) => last_byte(hay@, byte, from as int, to as int) == Some(at as int) && from
                <= at < to && hay@[at as int] == byte,
            None => last_byte(hay@, byte, from as int, to as int) is None,
        },
{
    let mut at: usize = to;
    while at > from
        invariant
            from <= at <= to,
            to <= hay@.len(),
            last_byte(hay@, byte, from as int, to as int) == last_byte(
                hay@,
                byte,
                from as int,
                at as int,
            ),
        decreases at,
    {
        if hay[at - 1] == byte {
            return Some(at - 1);
        }
        at -= 1;
    }
    None
}

/// A byte below 128 begins a character.
pub proof fn lemma_ascii_is_boundary(bytes: Seq<u8>, at: int)
    requires
        valid_utf8(bytes),
        0 <= at < bytes.len(),
        bytes[at] < 128,
    ensures
        is_char_boundary(bytes, at),
{
    is_char_boundary_iff_not_is_continuation_byte(bytes, at);
}

/// Behind a byte below 128 a character begins, or the text ends.
pub proof fn lemma_after_ascii(bytes: Seq<u8>, at: int)
    requires
        valid_utf8(bytes),
        0 <= at < bytes.len(),
        bytes[at] < 128,
    ensures
        is_char_boundary(bytes, at + 1),
{
    lemma_ascii_is_boundary(bytes, at);
    valid_utf8_split(bytes, at);
    let rest = bytes.subrange(at, bytes.len() as int);
    assert(rest[0] == bytes[at]);
    assert(valid_utf8(rest));
    let tail = pop_first_scalar(rest);
    assert(tail =~= bytes.subrange(at + 1, bytes.len() as int));
    if at + 1 == bytes.len() {
        is_char_boundary_start_end_of_seq(bytes);
    } else {
        assert(valid_utf8(tail));
        is_char_boundary_start_end_of_seq(tail);
        is_char_boundary_iff_not_is_continuation_byte(tail, 0);
        assert(tail[0] == bytes[at + 1]);
        is_char_boundary_iff_not_is_continuation_byte(bytes, at + 1);
    }
}

/// The part of a text between two byte positions.
pub open spec fn part(bytes: Seq<u8>, from: int, to: int) -> Seq<char> {
    decode_utf8(bytes.subrange(from, to))
}

/// Takes the part of a text between two byte positions.
pub fn slice<'a>(text: &'a str, from: usize, to: usize) -> (res: &'a str)
    requires
        from <= to <= encode_utf8(text@).len(),
        is_char_boundary(encode_utf8(text@), from as int),
        is_char_boundary(encode_utf8(text@), to as int),
    ensures
        res@ == part(encode_utf8(text@), from as int, to as int),
{
    let ghost bytes = encode_utf8(text@);
    proof {
        encode_utf8_valid_utf8(text@);
        valid_utf8_split(bytes, to as int);
        let head = bytes.subrange(0, to as int);
        if from == to {
            is_char_boundary_start_end_of_seq(head);
        } else {
            assert(head[from as int] == bytes[from as int]);
            is_char_boundary_iff_not_is_continuation_byte(bytes, from as int);
            is_char_boundary_iff_not_is_continuation_byte(head, from as int);
        }
    }
    let (head, _) = text.split_at(to);
    let (_, middle) = head.split_at(from);
    proof {
        assert(middle.spec_bytes() =~= bytes.subrange(from as int, to as int));
        encode_utf8_decode_utf8(middle@);
    }
    middle
}

/// The character separates words.
pub open spec fn is_space(c: char) -> bool {
    let code = c as u32;
    ||| 9 <= code <= 13
    ||| code == 32
    ||| code == 0x85
    ||| code == 0xa0
    ||| code == 0x1680
    ||| 0x2000 <= code <= 0x200a
    ||| code == 0x2028
    ||| code == 0x2029
    ||| code == 0x202f
    ||| code == 0x205f
    ||| code == 0x3000
}

/// Whether the character separates words.
pub fn separates(c: char) -> (res: bool)
    ensures
        res == is_space(c),
{
    let code: u32 = c as u32;
    (9 <= code && code <= 13) || code == 32 || code == 0x85 || code == 0xa0 || code == 0x1680 || (
    0x2000 <= code && code <= 0x200a) || code == 0x2028 || code == 0x2029 || code == 0x202f || code
        == 0x205f || code == 0x3000
}

/// The words of a text, where `started` is what the first holds already.
pub open spec fn words_from(started: Seq<char>, text: Seq<char>) -> Seq<Seq<char>>
    decreases text.len(),
{
    let ended = if started.len() > 0 {
        seq![started]
    } else {
        Seq::empty()
    };
    if text.len() == 0 {
        ended
    } else if is_space(text[0]) {
        ended + words_from(Seq::empty(), text.skip(1))
    } else {
        words_from(started.push(text[0]), text.skip(1))
    }
}

/// The words of a text.
pub open spec fn words(text: Seq<char>) -> Seq<Seq<char>> {
    words_from(Seq::empty(), text)
}

/// Splits a text into words.
pub fn split_words(text: &str) -> (res: Vec<String>)
    ensures
        texts(res@) == words(text@),
{
    let list = chars_of(text);
    let mut res: Vec<String> = Vec::new();
    let mut start: usize = 0;
    let mut i: usize = 0;
    proof {
        assert(list@.skip(0) =~= list@);
        assert(list@.subrange(0, 0) =~= Seq::empty());
        assert(texts(res@) + words(list@) =~= words(list@));
    }
    while i < list.len()
        invariant
            start <= i <= list@.len(),
            words(list@) == texts(res@) + words_from(
                list@.subrange(start as int, i as int),
                list@.skip(i as int),
            ),
        decreases list@.len() - i,
    {
        let ghost rest = list@.skip(i as int);
        let ghost started = list@.subrange(start as int, i as int);
        let ghost before = texts(res@);
        assert(rest[0] == list@[i as int]);
        assert(rest.skip(1) =~= list@.skip(i + 1));
        if separates(list[i]) {
            if start < i {
                res.push(string_of(&list, start, i));
                assert(texts(res@) =~= before.push(started));
            }
            start = i + 1;
            proof {
                let tail = words_from(Seq::empty(), rest.skip(1));
                let ended = if started.len() > 0 {
                    seq![started]
                } else {
                    Seq::empty()
                };
                assert(list@.subrange(i + 1, i + 1) =~= Seq::empty());
                assert(before + (ended + tail) =~= before + ended + tail);
                assert(texts(res@) =~= before + ended);
            }
        } else {
            assert(list@.subrange(start as int, i + 1) =~= started.push(rest[0]));
        }
        i += 1;
    }
    let ghost before = texts(res@);
    if start < i {
        res.push(string_of(&list, start, i));
        assert(texts(res@) =~= before.push(list@.subrange(start as int, i as int)));
    }
    assert(texts(res@) =~= words(list@));
    res
}

/// The number that decimal digits stand for; nothing where one is no digit or
/// where there is none.
pub open spec fn digits_value(text: Seq<char>) -> Option<nat>
    decreases text.len(),
{
    if text.len() == 0 {
        None
    } else {
        let last = text.last() as u32;
        let own = (last - 48) as nat;
        if !(48 <= last <= 57) {
            None
        } else if text.len() == 1 {
            Some(own)
        } else {
            match digits_value(text.drop_last()) {
                Some(value) => Some(value * 10 + own),
                None => None,
            }
        }
    }
}

/// The unsigned number of 32 bits that a text is written as, with or without a
/// plus sign.
pub open spec fn u32_value(text: Seq<char>) -> Option<u32> {
    let digits = if text.len() > 0 && text[0] == '+' {
        text.skip(1)
    } else {
        text
    };
    match digits_value(digits) {
        Some(value) => if value <= u32::MAX {
            Some(value as u32)
        } else {
            None
        },
        None => None,
    }
}

/// Reads an unsigned number of 32 bits.
pub fn parse_u32(text: &str) -> (res: Option<u32>)
    ensures
        res == u32_value(text@),
{
    let list = chars_of(text);
    let mut i: usize = 0;
    if list.len() > 0 && list[0] == '+' {
        i = 1;
    }
    let ghost digits = list@.skip(i as int);
    assert(i == 0 ==> digits =~= list@);
    let start: usize = i;
    let mut value: Option<u64> = None;
    let mut large: bool = false;
    assert(digits.take(0) =~= Seq::empty());
    while i < list.len()
        invariant
            start <= i <= list@.len(),
            list@ == text@,
            start <= 1,
            start == 1 <==> text@.len() > 0 && text@[0] == '+',
            digits == list@.skip(start as int),
            digits.len() == list@.len() - start,
            i > start ==> digits_value(digits.take(i - start)) is Some,
            large ==> (digits_value(digits.take(i - start)) matches Some(v) && v > u32::MAX),
            !large ==> match value {
                Some(v) => i > start && digits_value(digits.take(i - start)) == Some(v as nat) && v
                    <= u32::MAX,
                None => i == start,
            },
        decreases list@.len() - i,
    {
        let code: u32 = list[i] as u32;
        proof {
            assert(digits.take(i - start + 1).drop_last() =~= digits.take(i - start));
            assert(digits.take(i - start + 1).last() == list@[i as int]);
        }
        if code < 48 || code > 57 {
            proof {
                assert(digits[i - start] == list@[i as int]);
                lemma_no_digit(digits, i - start);
                assert(start == 0 ==> digits =~= text@);
            }
            return None;
        }
        let own: u64 = (code - 48) as u64;
        if !large {
            let next: u64 = match value {
                Some(v) => v * 10 + own,
                None => own,
            };
            if next > u32::MAX as u64 {
                large = true;
            }
            value = Some(next);
        }
        i += 1;
    }
    assert(digits.take(i - start) =~= digits);
    if large {
        return None;
    }
    match value {
        Some(v) => Some(v as u32),
        None => None,
    }
}

proof fn lemma_no_digit(text: Seq<char>, at: int)
    requires
        0 <= at < text.len(),
        !(48 <= text[at] as u32 <= 57),
    ensures
        digits_value(text) is None,
    decreases text.len(),
{
    if at < text.len() - 1 {
        lemma_no_digit(text.drop_last(), at);
    }
}

/// The text without the spaces at its ends.
pub open spec fn trimmed_spaces(text: Seq<char>) -> Seq<char> {
    without_end_spaces(without_start_spaces(text))
}

/// The text without the spaces at its start.
pub open spec fn without_start_spaces(text: Seq<char>) -> Seq<char>
    decreases text.len(),
{
    if text.len() > 0 && is_space(text[0]) {
        without_start_spaces(text.skip(1))
    } else {
        text
    }
}

/// The text without the spaces at its end.
pub open spec fn without_end_spaces(text: Seq<char>) -> Seq<char>
    decreases text.len(),
{
    if text.len() > 0 && is_space(text.last()) {
        without_end_spaces(text.drop_last())
    } else {
        text
    }
}

/// Removes the spaces at both ends.
pub fn trim_spaces(text: &str) -> (res: String)
    ensures
        res@ == trimmed_spaces(text@),
{
    let list = chars_of(text);
    let mut start: usize = 0;
    assert(list@.skip(0) =~= list@);
    while start < list.len() && separates(list[start])
        invariant
            start <= list@.len(),
            without_start_spaces(list@) == without_start_spaces(list@.skip(start as int)),
        decreases list@.len() - start,
    {
        assert(list@.skip(start as int)[0] == list@[start as int]);
        assert(list@.skip(start as int).skip(1) =~= list@.skip(start + 1));
        start += 1;
    }
    assert(start < list.len() ==> list@.skip(start as int)[0] == list@[start as int]);
    let ghost rest = list@.skip(start as int);
    let mut end: usize = list.len();
    assert(rest.take(end - start) =~= rest);
    while end > start && separates(list[end - 1])
        invariant
            start <= end <= list@.len(),
            rest == list@.skip(start as int),
            without_end_spaces(rest) == without_end_spaces(rest.take(end - start)),
        decreases end,
    {
        assert(rest.take(end - start).last() == list@[end - 1]);
        assert(rest.take(end - start).drop_last() =~= rest.take(end - start - 1));
        end -= 1;
    }
    assert(end > start ==> rest.take(end - start).last() == list@[end - 1]);
    assert(list@.subrange(start as int, end as int) =~= rest.take(end - start));
    string_of(&list, start, end)
}

} // verus!
