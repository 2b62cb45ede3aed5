//! Text as a list of characters.

use crate::text::texts;
use vstd::prelude::*;
use vstd::string::*;

verus! {

/// `String::push` of std: appends one character to the end of the string.
pub assume_specification[ String::push ](text: &mut String, c: char)
    ensures
        final(text)@ == old(text)@.push(c),
;

/// The characters of a string.
pub fn chars_of(text: &str) -> (res: Vec<char>)
    ensures
        res@ == text@,
{
    let mut res: Vec<char> = Vec::new();
    for c in iter: text.chars()
        invariant
            iter.seq() == text@,
            res@ == text@.take(iter.index()),
    {
        res.push(c);
        assert(res@ =~= text@.take(iter.index() + 1));
    }
    assert(text@.take(text@.len() as int) =~= text@);
    res
}

/// Whether the text has this character.
pub fn contains_char(text: &str, c: char) -> (res: bool)
    ensures
        res == text@.contains(c),
{
    let list = chars_of(text);
    let mut i: usize = 0;
    while i < list.len()
        invariant
            i <= list@.len(),
            list@ == text@,
            forall|j: int| 0 <= j < i ==> #[trigger] list@[j] != c,
        decreases list@.len() - i,
    {
        if list[i] == c {
            assert(text@[i as int] == c);
            return true;
        }
        i += 1;
    }
    false
}

/// The string of the characters from `from` up to `to`.
pub fn string_of(list: &Vec<char>, from: usize, to: usize) -> (res: String)
    requires
        from <= to <= list@.len(),
    ensures
        res@ == list@.subrange(from as int, to as int),
{
    let mut res = String::new();
    let mut i: usize = from;
    assert(res@ =~= list@.subrange(from as int, from as int));
    while i < to
        invariant
            from <= i <= to <= list@.len(),
            res@ == list@.subrange(from as int, i as int),
        decreases to - i,
    {
        res.push(list[i]);
        assert(res@ =~= list@.subrange(from as int, i + 1));
        i += 1;
    }
    res
}

/// The text without the run of `c` at its start.
pub open spec fn trimmed_start(text: Seq<char>, c: char) -> Seq<char>
    decreases text.len(),
{
    if text.len() > 0 && text[0] == c {
        trimmed_start(text.skip(1), c)
    } else {
        text
    }
}

/// The text without the run of `c` at its end.
pub open spec fn trimmed_end(text: Seq<char>, c: char) -> Seq<char>
    decreases text.len(),
{
    if text.len() > 0 && text.last() == c {
        trimmed_end(text.drop_last(), c)
    } else {
        text
    }
}

/// Removes the run of `c` at the end.
pub fn trim_end(text: &str, c: char) -> (res: String)
    ensures
        res@ == trimmed_end(text@, c),
{
    let list = chars_of(text);
    let mut end: usize = list.len();
    assert(list@.take(end as int) =~= list@);
    while end > 0 && list[end - 1] == c
        invariant
            end <= list@.len(),
            trimmed_end(list@, c) == trimmed_end(list@.take(end as int), c),
        decreases end,
    {
        assert(list@.take(end as int).last() == list@[end - 1]);
        assert(list@.take(end as int).drop_last() =~= list@.take(end - 1));
        end -= 1;
    }
    assert(end > 0 ==> list@.take(end as int).last() == list@[end - 1]);
    assert(list@.subrange(0, end as int) =~= list@.take(end as int));
    string_of(&list, 0, end)
}

/// Removes the runs of `c` at both ends.
pub fn trim_both(text: &str, c: char) -> (res: String)
    ensures
        res@ == trimmed_end(trimmed_start(text@, c), c),
{
    let list = chars_of(text);
    let mut start: usize = 0;
    assert(list@.skip(0) =~= list@);
    while start < list.len() && list[start] == c
        invariant
            start <= list@.len(),
            trimmed_start(list@, c) == trimmed_start(list@.skip(start as int), c),
        decreases list@.len() - start,
    {
        assert(list@.skip(start as int)[0] == list@[start as int]);
        assert(list@.skip(start as int).skip(1) =~= list@.skip(start + 1));
        start += 1;
    }
    assert(start < list.len() ==> list@.skip(start as int)[0] == list@[start as int]);
    assert(list@.subrange(start as int, list@.len() as int) =~= list@.skip(start as int));
    let rest = string_of(&list, start, list.len());
    trim_end(rest.as_str(), c)
}

/// The text with each pair of `c` replaced by one, from left to right.
pub open spec fn pairs_replaced(text: Seq<char>, c: char) -> Seq<char>
    decreases text.len(),
{
    if text.len() == 0 {
        text
    } else if text.len() > 1 && text[0] == c && text[1] == c {
        seq![c] + pairs_replaced(text.skip(2), c)
    } else {
        seq![text[0]] + pairs_replaced(text.skip(1), c)
    }
}

/// Replaces each pair of `c` by one, from left to right.
pub fn replace_pairs(text: &str, c: char) -> (res: String)
    ensures
        res@ == pairs_replaced(text@, c),
{
    let list = chars_of(text);
    let mut res = String::new();
    let mut i: usize = 0;
    assert(list@.skip(0) =~= list@);
    assert(res@ + pairs_replaced(list@, c) =~= pairs_replaced(list@, c));
    while i < list.len()
        invariant
            i <= list@.len(),
            pairs_replaced(list@, c) == res@ + pairs_replaced(list@.skip(i as int), c),
        decreases list@.len() - i,
    {
        let ghost rest = list@.skip(i as int);
        let ghost before = res@;
        assert(rest[0] == list@[i as int]);
        if i + 1 < list.len() && list[i] == c && list[i + 1] == c {
            assert(rest[1] == list@[i + 1]);
            assert(rest.skip(2) =~= list@.skip(i + 2));
            res.push(c);
            assert(before + (seq![c] + pairs_replaced(rest.skip(2), c)) =~= res@ + pairs_replaced(
                rest.skip(2),
                c,
            ));
            i += 2;
        } else {
            assert(rest.len() > 1 ==> rest[1] == list@[i + 1]);
            assert(rest.skip(1) =~= list@.skip(i + 1));
            res.push(list[i]);
            assert(before + (seq![rest[0]] + pairs_replaced(rest.skip(1), c)) =~= res@
                + pairs_replaced(rest.skip(1), c));
            i += 1;
        }
    }
    assert(res@ + pairs_replaced(list@.skip(i as int), c) =~= res@);
    res
}

/// The parts of `text` between occurrences of `c`, without the empty ones,
/// where `started` is what the first part holds already.
pub open spec fn parts_from(started: Seq<char>, text: Seq<char>, c: char) -> Seq<Seq<char>>
    decreases text.len(),
{
    let ended = if started.len() > 0 {
        seq![started]
    } else {
        Seq::empty()
    };
    if text.len() == 0 {
        ended
    } else if text[0] == c {
        ended + parts_from(Seq::empty(), text.skip(1), c)
    } else {
        parts_from(started.push(text[0]), text.skip(1), c)
    }
}

/// The parts of the text between occurrences of `c`, without the empty ones.
pub open spec fn parts_between(text: Seq<char>, c: char) -> Seq<Seq<char>> {
    parts_from(Seq::empty(), text, c)
}

fn end_part(parts: &mut Vec<String>, list: &Vec<char>, start: usize, end: usize)
    requires
        start <= end <= list@.len(),
    ensures
        texts(final(parts)@) == texts(old(parts)@) + (if start < end {
            seq![list@.subrange(start as int, end as int)]
        } else {
            Seq::empty()
        }),
{
    let ghost before = parts@;
    if start < end {
        parts.push(string_of(list, start, end));
    }
    assert(texts(parts@) =~= texts(before) + (if start < end {
        seq![list@.subrange(start as int, end as int)]
    } else {
        Seq::empty()
    }));
}

/// Splits the text at each `c` and drops the empty parts.
pub fn split_parts(text: &str, c: char) -> (res: Vec<String>)
    ensures
        texts(res@) == parts_between(text@, c),
{
    let list = chars_of(text);
    let mut res: Vec<String> = Vec::new();
    let mut start: usize = 0;
    let mut i: usize = 0;
    proof {
        assert(list@.skip(0) =~= list@);
        assert(list@.subrange(0, 0) =~= Seq::empty());
        assert(texts(res@) + parts_between(list@, c) =~= parts_between(list@, c));
    }
    while i < list.len()
        invariant
            start <= i <= list@.len(),
            parts_between(list@, c) == texts(res@) + parts_from(
                list@.subrange(start as int, i as int),
                list@.skip(i as int),
                c,
            ),
        decreases list@.len() - i,
    {
        let ghost rest = list@.skip(i as int);
        let ghost started = list@.subrange(start as int, i as int);
        let ghost before = texts(res@);
        assert(rest[0] == list@[i as int]);
        assert(rest.skip(1) =~= list@.skip(i + 1));
        if list[i] == c {
            end_part(&mut res, &list, start, i);
            start = i + 1;
            proof {
                let tail = parts_from(Seq::empty(), rest.skip(1), c);
                let ended = if started.len() > 0 {
                    seq![started]
                } else {
                    Seq::empty()
                };
                assert(list@.subrange(i + 1, i + 1) =~= Seq::empty());
                assert(before + (ended + tail) =~= before + ended + tail);
            }
        } else {
            assert(list@.subrange(start as int, i + 1) =~= started.push(rest[0]));
        }
        i += 1;
    }
    let ghost before = texts(res@);
    end_part(&mut res, &list, start, i);
    res
}

} // verus!
