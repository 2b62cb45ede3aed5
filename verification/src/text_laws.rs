//! What the reading and writing of texts comes to.

use crate::chars::{parts_between, parts_from, trimmed_end};
use crate::commit::{first_replaced, first_text, ToolContent};
use crate::decimal::{fraction_text, millionths_text, number_text, padded};
use crate::property_text::{escaped, lemma_encode_char, lemma_encode_concat};
use crate::scan::{
    digits_value, first_byte, is_space, last_byte, trimmed_spaces, u32_value, without_end_spaces,
    without_start_spaces, words, words_from,
};
use crate::text::{joined, parts_at, text_before};
use vstd::prelude::*;
use vstd::string::*;
use vstd::utf8::*;

verus! {

/// The character that an escaped one stands for.
pub open spec fn meant(c: char) -> char {
    if c == 'n' {
        '\n'
    } else if c == 'r' {
        '\r'
    } else if c == 't' {
        '\t'
    } else {
        c
    }
}

/// A text as it is read between quotation marks.
pub open spec fn unescaped(text: Seq<char>) -> Seq<char>
    decreases text.len(),
{
    if text.len() == 0 {
        Seq::empty()
    } else if text[0] == '\\' && text.len() > 1 {
        seq![meant(text[1])] + unescaped(text.skip(2))
    } else {
        seq![text[0]] + unescaped(text.skip(1))
    }
}

/// What is written between quotation marks reads back as it was, and holds no
/// line end and no tab.
pub proof fn law_an_escaped_text_reads_back(text: Seq<char>)
    ensures
        unescaped(escaped(text)) == text,
        !escaped(text).contains('\n'),
        !escaped(text).contains('\r'),
        !escaped(text).contains('\t'),
    decreases text.len(),
{
    if text.len() > 0 {
        let rest = text.skip(1);
        law_an_escaped_text_reads_back(rest);
        let (c, tail, all) = (text[0], escaped(rest), escaped(text));
        let own = all.len() - tail.len();
        assert(all.skip(own) =~= tail);
        assert(text =~= seq![c] + rest);
        if own == 2 {
            assert(all[0] == '\\');
        } else {
            assert(all[0] == c && c != '\\');
        }
        assert forall|i: int| 0 <= i < all.len() implies #[trigger] all[i] != '\n' && all[i] != '\r'
            && all[i] != '\t' by {
            if i >= own {
                assert(all[i] == tail[i - own]);
                assert(tail.contains(tail[i - own]));
            }
        }
    }
}

/// The number that a text of digits stands for is the one that is written so.
pub proof fn law_a_number_reads_back(n: nat)
    ensures
        digits_value(number_text(n)) == Some(n),
        n <= u32::MAX ==> u32_value(number_text(n)) == Some(n as u32),
        n <= u32::MAX ==> u32_value(seq!['+'] + number_text(n)) == Some(n as u32),
    decreases n,
{
    if n >= 10 {
        law_a_number_reads_back(n / 10);
    }
    let text = number_text(n);
    lemma_digits(n);
    assert((seq!['+'] + text).skip(1) =~= text);
}

/// A number is written in digits alone.
pub proof fn lemma_digits(n: nat)
    ensures
        number_text(n).len() > 0,
        forall|i: int| 0 <= i < number_text(n).len() ==> '0' <= #[trigger] number_text(n)[i] <= '9',
        digits_value(number_text(n)) == Some(n),
    decreases n,
{
    if n >= 10 {
        lemma_digits(n / 10);
        assert(number_text(n).drop_last() =~= number_text(n / 10));
    }
}

/// The character is a decimal digit.
pub open spec fn is_digit(c: char) -> bool {
    48 <= c as u32 <= 57
}

/// A text is a number exactly if it is digits, one at least.
pub proof fn law_only_digits_are_a_number(text: Seq<char>)
    ensures
        digits_value(text) is Some <==> text.len() > 0 && forall|i: int|
            0 <= i < text.len() ==> is_digit(#[trigger] text[i]),
    decreases text.len(),
{
    if text.len() > 0 {
        let rest = text.drop_last();
        law_only_digits_are_a_number(rest);
        assert(text[text.len() - 1] == text.last());
        assert(forall|i: int| 0 <= i < rest.len() ==> #[trigger] rest[i] == text[i]);
        if digits_value(text) is Some {
            assert forall|i: int| 0 <= i < text.len() implies is_digit(#[trigger] text[i]) by {
                if i < rest.len() {
                    assert(is_digit(rest[i]));
                }
            }
        } else if text.len() > 1 && is_digit(text.last()) {
            assert(digits_value(rest) is None);
            let i = choose|i: int| 0 <= i < rest.len() && !is_digit(#[trigger] rest[i]);
            assert(!is_digit(text[i]));
        }
    }
}

/// Every character of these is a space.
pub open spec fn all_spaces(text: Seq<char>) -> bool {
    forall|i: int| 0 <= i < text.len() ==> is_space(#[trigger] text[i])
}

/// Trimming takes the spaces from both ends and nothing else.
pub proof fn law_trimming_takes_the_spaces_at_the_ends(text: Seq<char>) -> (ends: (int, int))
    ensures
        0 <= ends.0 <= ends.1 <= text.len(),
        trimmed_spaces(text) == text.subrange(ends.0, ends.1),
        all_spaces(text.take(ends.0)),
        all_spaces(text.skip(ends.1)),
        ends.0 < ends.1 ==> !is_space(text[ends.0]) && !is_space(text[ends.1 - 1]),
{
    let from = lemma_start(text);
    let rest = text.skip(from);
    let to = lemma_end(rest);
    assert(trimmed_spaces(text) =~= text.subrange(from, from + to));
    if to > 0 {
        assert(rest[0] == text[from]);
        assert(rest[to - 1] == text[from + to - 1]);
    }
    assert forall|i: int| 0 <= i < text.skip(from + to).len() implies is_space(
        #[trigger] text.skip(from + to)[i],
    ) by {
        assert(text.skip(from + to)[i] == rest.skip(to)[i]);
    }
    (from, from + to)
}

proof fn lemma_start(text: Seq<char>) -> (from: int)
    ensures
        0 <= from <= text.len(),
        without_start_spaces(text) == text.skip(from),
        all_spaces(text.take(from)),
        from < text.len() ==> !is_space(text[from]),
    decreases text.len(),
{
    if text.len() > 0 && is_space(text[0]) {
        let rest = text.skip(1);
        let from = lemma_start(rest);
        assert(rest.skip(from) =~= text.skip(from + 1));
        assert forall|i: int| 0 <= i < from + 1 implies is_space(
            #[trigger] text.take(from + 1)[i],
        ) by {
            if i > 0 {
                assert(rest.take(from)[i - 1] == text[i]);
            }
        }
        from + 1
    } else {
        assert(text.skip(0) =~= text);
        0
    }
}

proof fn lemma_end(text: Seq<char>) -> (to: int)
    ensures
        0 <= to <= text.len(),
        without_end_spaces(text) == text.take(to),
        all_spaces(text.skip(to)),
        to > 0 ==> !is_space(text[to - 1]),
    decreases text.len(),
{
    if text.len() > 0 && is_space(text.last()) {
        let rest = text.drop_last();
        let to = lemma_end(rest);
        assert(rest.take(to) =~= text.take(to));
        assert forall|i: int| 0 <= i < text.skip(to).len() implies is_space(
            #[trigger] text.skip(to)[i],
        ) by {
            if i < rest.len() - to {
                assert(rest.skip(to)[i] == text[to + i]);
            }
        }
        to
    } else {
        assert(text.take(text.len() as int) =~= text);
        text.len() as int
    }
}

/// Words end at spaces and nowhere else: what stands on either side of a space
/// is split by itself, and a text without one is a word of its own.
pub proof fn law_words_end_at_spaces(a: Seq<char>, space: char, b: Seq<char>)
    requires
        is_space(space),
    ensures
        words(a + seq![space] + b) == words(a) + words(b),
        a.len() > 0 && (forall|k: int| 0 <= k < a.len() ==> !is_space(#[trigger] a[k])) ==> words(a)
            == seq![a],
        words(Seq::empty()) == Seq::<Seq<char>>::empty(),
{
    lemma_split(Seq::empty(), a, space, b);
    if forall|k: int| 0 <= k < a.len() ==> !is_space(#[trigger] a[k]) {
        lemma_one_word(Seq::empty(), a);
        assert(Seq::<char>::empty() + a =~= a);
    }
}

proof fn lemma_split(started: Seq<char>, a: Seq<char>, space: char, b: Seq<char>)
    requires
        is_space(space),
    ensures
        words_from(started, a + seq![space] + b) == words_from(started, a) + words_from(
            Seq::empty(),
            b,
        ),
    decreases a.len(),
{
    let all = a + seq![space] + b;
    if a.len() == 0 {
        assert(all.skip(1) =~= b);
    } else {
        assert(all.skip(1) =~= a.skip(1) + seq![space] + b);
        if is_space(a[0]) {
            lemma_split(Seq::empty(), a.skip(1), space, b);
            let ended = if started.len() > 0 {
                seq![started]
            } else {
                Seq::empty()
            };
            assert(ended + (words_from(Seq::empty(), a.skip(1)) + words_from(Seq::empty(), b))
                =~= (ended + words_from(Seq::empty(), a.skip(1))) + words_from(Seq::empty(), b));
        } else {
            lemma_split(started.push(a[0]), a.skip(1), space, b);
        }
    }
}

proof fn lemma_one_word(started: Seq<char>, a: Seq<char>)
    requires
        forall|k: int| 0 <= k < a.len() ==> !is_space(#[trigger] a[k]),
    ensures
        (started + a).len() > 0 ==> words_from(started, a) == seq![started + a],
    decreases a.len(),
{
    if a.len() > 0 {
        lemma_one_word(started.push(a[0]), a.skip(1));
        assert(started.push(a[0]) + a.skip(1) =~= started + a);
    } else {
        assert(started + a =~= started);
    }
}

/// The words of a text hold all that is no space, in order; each of them holds
/// something and no space.
pub proof fn law_the_words_hold_all_but_the_spaces(text: Seq<char>)
    ensures
        words(text).flatten_alt() == text.filter(|c: char| !is_space(c)),
        forall|i: int|
            0 <= i < words(text).len() ==> (#[trigger] words(text)[i]).len() > 0 && forall|k: int|
                0 <= k < words(text)[i].len() ==> !is_space(#[trigger] words(text)[i][k]),
{
    lemma_words(Seq::empty(), text);
    assert(Seq::<char>::empty() + text.filter(|c: char| !is_space(c)) =~= text.filter(
        |c: char| !is_space(c),
    ));
}

proof fn lemma_words(started: Seq<char>, text: Seq<char>)
    requires
        forall|k: int| 0 <= k < started.len() ==> !is_space(#[trigger] started[k]),
    ensures
        words_from(started, text).flatten_alt() == started + text.filter(|c: char| !is_space(c)),
        forall|i: int|
            0 <= i < words_from(started, text).len() ==> (#[trigger] words_from(
                started,
                text,
            )[i]).len() > 0 && forall|k: int|
                0 <= k < words_from(started, text)[i].len() ==> !is_space(
                    #[trigger] words_from(started, text)[i][k],
                ),
    decreases text.len(),
{
    reveal(Seq::filter);
    let keep = |c: char| !is_space(c);
    let ended = if started.len() > 0 {
        seq![started]
    } else {
        Seq::empty()
    };
    assert(ended.flatten_alt() =~= started) by {
        if started.len() > 0 {
            assert(ended.drop_last() =~= Seq::empty());
            assert(ended.drop_last().flatten_alt() =~= Seq::empty());
        }
    }
    if text.len() > 0 {
        let rest = text.skip(1);
        assert(text =~= seq![text[0]] + rest);
        let first = seq![text[0]];
        assert(first.drop_last() =~= Seq::<char>::empty());
        assert(first.drop_last().filter(keep) =~= Seq::<char>::empty());
        Seq::filter_distributes_over_add(first, rest, keep);
        if is_space(text[0]) {
            lemma_words(Seq::empty(), rest);
            let more = words_from(Seq::empty(), rest);
            let all = words_from(started, text);
            assert(all == ended + more);
            lemma_flatten(ended, more);
            assert forall|i: int| 0 <= i < all.len() implies (#[trigger] all[i]).len() > 0
                && forall|k: int| 0 <= k < all[i].len() ==> !is_space(#[trigger] all[i][k]) by {
                if i >= ended.len() {
                    assert(all[i] == more[i - ended.len()]);
                }
            }
        } else {
            lemma_words(started.push(text[0]), rest);
        }
        assert(started.push(text[0]) + rest.filter(keep) =~= started + (seq![text[0]]
            + rest.filter(keep)));
    } else {
        assert(text.filter(keep) =~= Seq::<char>::empty());
    }
}

proof fn lemma_flatten(a: Seq<Seq<char>>, b: Seq<Seq<char>>)
    ensures
        (a + b).flatten_alt() == a.flatten_alt() + b.flatten_alt(),
    decreases b.len(),
{
    if b.len() == 0 {
        assert(a + b =~= a);
        assert(a.flatten_alt() + b.flatten_alt() =~= a.flatten_alt());
    } else {
        lemma_flatten(a, b.drop_last());
        assert((a + b).drop_last() =~= a + b.drop_last());
        assert(a.flatten_alt() + (b.drop_last().flatten_alt() + b.last()) =~= (a.flatten_alt()
            + b.drop_last().flatten_alt()) + b.last());
    }
}

/// The first place of a byte has it, and no place before does.
pub proof fn law_the_first_byte_is_the_first(hay: Seq<u8>, byte: u8, from: int, to: int)
    ensures
        first_byte(hay, byte, from, to) is None <==> forall|i: int|
            from <= i < to ==> #[trigger] hay[i] != byte,
        first_byte(hay, byte, from, to) matches Some(at) ==> from <= at < to && hay[at] == byte
            && forall|i: int| from <= i < at ==> #[trigger] hay[i] != byte,
    decreases to - from,
{
    if from < to && hay[from] != byte {
        law_the_first_byte_is_the_first(hay, byte, from + 1, to);
    }
}

/// The last place of a byte has it, and no place behind does.
pub proof fn law_the_last_byte_is_the_last(hay: Seq<u8>, byte: u8, from: int, to: int)
    ensures
        last_byte(hay, byte, from, to) is None <==> forall|i: int|
            from <= i < to ==> #[trigger] hay[i] != byte,
        last_byte(hay, byte, from, to) matches Some(at) ==> from <= at < to && hay[at] == byte
            && forall|i: int| at < i < to ==> #[trigger] hay[i] != byte,
    decreases to - from,
{
    if from < to && hay[to - 1] != byte {
        law_the_last_byte_is_the_last(hay, byte, from, to - 1);
    }
}

/// One text stands in another at this place.
pub open spec fn stands_in(text: Seq<char>, from: Seq<char>, at: int) -> bool {
    0 <= at && at + from.len() <= text.len() && text.subrange(at, at + from.len()) == from
}

/// Only the first occurrence of a text gives way, and nothing changes where it
/// does not occur.
pub proof fn law_the_first_occurrence_gives_way(
    text: Seq<char>,
    from: Seq<char>,
    to: Seq<char>,
    at: int,
)
    ensures
        stands_in(text, from, at) && (forall|p: int| 0 <= p < at ==> !stands_in(text, from, p))
            ==> first_replaced(text, from, to) == text.take(at) + to + text.skip(at + from.len()),
        (forall|p: int| !stands_in(text, from, p)) ==> first_replaced(text, from, to) == text,
    decreases text.len(),
{
    if from.len() <= text.len() {
        assert(text.subrange(0, from.len() as int) =~= text.take(from.len() as int));
        if text.take(from.len() as int) == from {
            assert(stands_in(text, from, 0));
            if stands_in(text, from, at) && (forall|p: int|
                0 <= p < at ==> !stands_in(text, from, p)) {
                assert(at == 0);
                assert(text.take(0) + to + text.skip(from.len() as int) =~= to + text.skip(
                    from.len() as int,
                ));
            }
        } else if text.len() > 0 {
            let rest = text.skip(1);
            law_the_first_occurrence_gives_way(rest, from, to, at - 1);
            assert forall|p: int| #[trigger] stands_in(rest, from, p) implies stands_in(
                text,
                from,
                p + 1,
            ) by {
                assert(rest.subrange(p, p + from.len()) =~= text.subrange(p + 1, p + 1 + from.len()));
            }
            if stands_in(text, from, at) && (forall|p: int|
                0 <= p < at ==> !stands_in(text, from, p)) {
                assert(at > 0);
                assert(rest.subrange(at - 1, at - 1 + from.len()) =~= text.subrange(
                    at,
                    at + from.len(),
                ));
                assert(seq![text[0]] + (rest.take(at - 1) + to + rest.skip(at - 1 + from.len()))
                    =~= text.take(at) + to + text.skip(at + from.len()));
            }
            if forall|p: int| !stands_in(text, from, p) {
                assert(seq![text[0]] + rest =~= text);
            }
        } else {
            assert(text.take(0) =~= from);
        }
    }
}

/// The text of an answer is its first one, and images have none.
pub proof fn law_the_first_text_is_told(contents: Seq<ToolContent>, n: nat)
    requires
        n <= contents.len(),
    ensures
        first_text(contents, n) is None <==> forall|i: int|
            0 <= i < n ==> !(#[trigger] contents[i] is Text),
        forall|i: int|
            0 <= i < n && #[trigger] contents[i] is Text && (forall|j: int|
                0 <= j < i ==> !(#[trigger] contents[j] is Text)) ==> first_text(contents, n)
                == Some(contents[i]->text@),
    decreases n,
{
    if n > 0 {
        law_the_first_text_is_told(contents, (n - 1) as nat);
    }
}

/// The characters that separate words are the white space of Unicode and no
/// other.
pub proof fn law_these_characters_are_spaces(c: char)
    ensures
        is_space(c) <==> seq![
            0x09u32,
            0x0au32,
            0x0bu32,
            0x0cu32,
            0x0du32,
            0x20u32,
            0x85u32,
            0xa0u32,
            0x1680u32,
            0x2000u32,
            0x2001u32,
            0x2002u32,
            0x2003u32,
            0x2004u32,
            0x2005u32,
            0x2006u32,
            0x2007u32,
            0x2008u32,
            0x2009u32,
            0x200au32,
            0x2028u32,
            0x2029u32,
            0x202fu32,
            0x205fu32,
            0x3000u32,
        ].contains(c as u32),
{
    let list = seq![
        0x09u32,
        0x0au32,
        0x0bu32,
        0x0cu32,
        0x0du32,
        0x20u32,
        0x85u32,
        0xa0u32,
        0x1680u32,
        0x2000u32,
        0x2001u32,
        0x2002u32,
        0x2003u32,
        0x2004u32,
        0x2005u32,
        0x2006u32,
        0x2007u32,
        0x2008u32,
        0x2009u32,
        0x200au32,
        0x2028u32,
        0x2029u32,
        0x202fu32,
        0x205fu32,
        0x3000u32,
    ];
    let code = c as u32;
    if is_space(c) {
        let at: int = if code <= 0x0d {
            code - 0x09
        } else if code == 0x20 {
            5
        } else if code == 0x85 {
            6
        } else if code == 0xa0 {
            7
        } else if code == 0x1680 {
            8
        } else if code <= 0x200a {
            code - 0x2000 + 9
        } else if code == 0x2028 {
            20
        } else if code == 0x2029 {
            21
        } else if code == 0x202f {
            22
        } else if code == 0x205f {
            23
        } else {
            24
        };
        assert(list[at] == code);
    }
}

/// Parts end where the separator stands and nowhere else: what stands on either
/// side of it is split by itself, and a text without it is one part.
pub proof fn law_parts_end_at_the_separator(a: Seq<char>, c: char, b: Seq<char>)
    ensures
        parts_between(a + seq![c] + b, c) == parts_between(a, c) + parts_between(b, c),
        a.len() > 0 && !a.contains(c) ==> parts_between(a, c) == seq![a],
        parts_between(Seq::empty(), c) == Seq::<Seq<char>>::empty(),
{
    lemma_parts_split(Seq::empty(), a, c, b);
    if !a.contains(c) {
        lemma_one_part(Seq::empty(), a, c);
        assert(Seq::<char>::empty() + a =~= a);
    }
}

proof fn lemma_parts_split(started: Seq<char>, a: Seq<char>, c: char, b: Seq<char>)
    ensures
        parts_from(started, a + seq![c] + b, c) == parts_from(started, a, c) + parts_from(
            Seq::empty(),
            b,
            c,
        ),
    decreases a.len(),
{
    let all = a + seq![c] + b;
    if a.len() == 0 {
        assert(all.skip(1) =~= b);
    } else {
        assert(all.skip(1) =~= a.skip(1) + seq![c] + b);
        if a[0] == c {
            lemma_parts_split(Seq::empty(), a.skip(1), c, b);
            let ended = if started.len() > 0 {
                seq![started]
            } else {
                Seq::empty()
            };
            assert(ended + (parts_from(Seq::empty(), a.skip(1), c) + parts_from(
                Seq::empty(),
                b,
                c,
            )) =~= (ended + parts_from(Seq::empty(), a.skip(1), c)) + parts_from(
                Seq::empty(),
                b,
                c,
            ));
        } else {
            lemma_parts_split(started.push(a[0]), a.skip(1), c, b);
        }
    }
}

proof fn lemma_one_part(started: Seq<char>, a: Seq<char>, c: char)
    requires
        !a.contains(c),
    ensures
        (started + a).len() > 0 ==> parts_from(started, a, c) == seq![started + a],
    decreases a.len(),
{
    if a.len() > 0 {
        assert(a.contains(a[0]));
        assert forall|x: char| a.skip(1).contains(x) implies a.contains(x) by {
            assert(a[a.skip(1).index_of(x) + 1] == x);
        }
        lemma_one_part(started.push(a[0]), a.skip(1), c);
        assert(started.push(a[0]) + a.skip(1) =~= started + a);
    } else {
        assert(started + a =~= started);
    }
}

/// Texts that are joined stand one after another with the separator between
/// any two of them and nowhere else.
pub proof fn law_joining_puts_the_separator_between(
    a: Seq<Seq<char>>,
    b: Seq<Seq<char>>,
    separator: Seq<char>,
)
    ensures
        a.len() > 0 && b.len() > 0 ==> joined(a + b, separator) == joined(a, separator) + separator
            + joined(b, separator),
        forall|text: Seq<char>| #[trigger] joined(seq![text], separator) == text,
        joined(Seq::empty(), separator) == Seq::<char>::empty(),
    decreases b.len(),
{
    if a.len() > 0 && b.len() > 0 {
        let all = a + b;
        assert(all.drop_last() =~= a + b.drop_last());
        assert(all.last() == b.last());
        if b.len() == 1 {
            assert(a + b.drop_last() =~= a);
            assert(joined(b, separator) == b[0]);
        } else {
            law_joining_puts_the_separator_between(a, b.drop_last(), separator);
            assert(joined(a, separator) + separator + joined(b.drop_last(), separator) + separator
                + b.last() =~= joined(a, separator) + separator + (joined(
                b.drop_last(),
                separator,
            ) + separator + b.last()));
        }
    }
}

/// Texts are ordered by where they first differ: a text comes before those that
/// it begins, and of two ASCII characters the smaller one comes first.
pub proof fn law_texts_are_ordered_by_the_first_difference(
    start: Seq<char>,
    c: char,
    d: char,
    x: Seq<char>,
    y: Seq<char>,
)
    ensures
        text_before(start, start + seq![c] + x),
        c < d && (d as u32) < 128 ==> text_before(start + seq![c] + x, start + seq![d] + y)
            && !text_before(start + seq![d] + y, start + seq![c] + x),
{
    let (s, cx, dy) = (encode_utf8(start), seq![c] + x, seq![d] + y);
    assert(start + seq![c] + x =~= start + cx);
    assert(start + seq![d] + y =~= start + dy);
    lemma_encode_concat(start, cx);
    lemma_encode_concat(start, dy);
    lemma_encode_char(c, x);
    lemma_encode_char(d, y);
    char_is_scalar(c);
    char_is_scalar(d);
    let (a, b) = (encode_utf8(start + cx), encode_utf8(start + dy));
    let n = s.len() as int;
    assert(encode_scalar(c as u32).len() > 0);
    assert(parts_at(s, a, n)) by {
        assert forall|j: int| 0 <= j < n implies s[j] == a[j] by {}
    }
    if c < d && (d as u32) < 128 {
        is_ascii_chars_encode_utf8(seq![c]);
        is_ascii_chars_encode_utf8(seq![d]);
        lemma_encode_char(c, Seq::empty());
        lemma_encode_char(d, Seq::empty());
        assert(seq![c] + Seq::<char>::empty() =~= seq![c]);
        assert(seq![d] + Seq::<char>::empty() =~= seq![d]);
        assert(encode_utf8(seq![c])[0] == c as u8);
        assert(encode_utf8(seq![d])[0] == d as u8);
        assert(encode_utf8(seq![c]) =~= encode_scalar(c as u32));
        assert(encode_utf8(seq![d]) =~= encode_scalar(d as u32));
        assert(a[n] == c as u8 && b[n] == d as u8);
        assert(parts_at(a, b, n)) by {
            assert forall|j: int| 0 <= j < n implies a[j] == b[j] by {
                assert(a[j] == s[j]);
                assert(b[j] == s[j]);
            }
        }
        assert forall|i: int| !#[trigger] parts_at(b, a, i) by {
            if parts_at(b, a, i) {
                if i < n {
                    assert(b[i] == s[i] && a[i] == s[i]);
                } else if i > n {
                    assert(b[n] == a[n]);
                }
            }
        }
    }
}

/// So many zeros.
pub open spec fn zeros(n: nat) -> Seq<char> {
    Seq::new(n, |i: int| '0')
}

/// A decimal fraction ends in no zero, and with its zeros put back it is the
/// six digits of the millionths.
pub proof fn law_a_fraction_reads_back(millionths: nat)
    requires
        0 < millionths < 1_000_000,
    ensures
        0 < fraction_text(millionths).len() <= 6,
        fraction_text(millionths).last() != '0',
        digits_value(
            fraction_text(millionths) + zeros((6 - fraction_text(millionths).len()) as nat),
        ) == Some(millionths),
{
    let all = padded(millionths, 6);
    reveal_with_fuel(padded, 7);
    lemma_padded(millionths, 6);
    lemma_trimmed(all);
    let text = fraction_text(millionths);
    assert(text + zeros((6 - text.len()) as nat) =~= all);
    if text.len() == 0 {
        assert(all =~= zeros(6));
        lemma_zeros(6);
    }
}

proof fn lemma_zeros(n: nat)
    requires
        n > 0,
    ensures
        digits_value(zeros(n)) == Some(0nat),
    decreases n,
{
    assert(zeros(n).last() == '0');
    if n > 1 {
        lemma_zeros((n - 1) as nat);
        assert(zeros(n).drop_last() =~= zeros((n - 1) as nat));
    }
}

proof fn lemma_trimmed(text: Seq<char>)
    ensures
        trimmed_end(text, '0').len() <= text.len(),
        text == trimmed_end(text, '0') + zeros((text.len() - trimmed_end(text, '0').len()) as nat),
        trimmed_end(text, '0').len() > 0 ==> trimmed_end(text, '0').last() != '0',
    decreases text.len(),
{
    let short = trimmed_end(text, '0');
    if text.len() > 0 && text.last() == '0' {
        let rest = text.drop_last();
        lemma_trimmed(rest);
        let n = (rest.len() - short.len()) as nat;
        assert(text =~= rest.push('0'));
        assert(zeros(n + 1) =~= zeros(n).push('0'));
        assert(text =~= short + zeros(n + 1));
    } else {
        assert(text =~= short + zeros(0));
    }
}

/// The number of this many digits that the last digits of a number are.
pub open spec fn last_digits(value: nat, width: nat) -> nat
    decreases width,
{
    if width == 0 {
        0
    } else {
        last_digits(value / 10, (width - 1) as nat) * 10 + value % 10
    }
}

proof fn lemma_padded(value: nat, width: nat)
    requires
        width > 0,
    ensures
        padded(value, width).len() == width,
        digits_value(padded(value, width)) == Some(last_digits(value, width)),
        width == 6 && value < 1_000_000 ==> last_digits(value, width) == value,
    decreases width,
{
    if width > 1 {
        lemma_padded(value / 10, (width - 1) as nat);
        assert(padded(value, width).drop_last() =~= padded(value / 10, (width - 1) as nat));
    } else {
        assert(padded(value / 10, 0) =~= Seq::empty());
    }
    reveal_with_fuel(last_digits, 7);
}

/// A number of millionths is written as its whole part, with a sign where it is
/// below nothing, and with the rest as a fraction where there is one.
pub proof fn law_millionths_are_written_in_full(value: int)
    ensures
        value > 0 ==> millionths_text(-value) == seq!['-'] + millionths_text(value),
        value >= 0 && value % 1_000_000 == 0 ==> millionths_text(value) == number_text(
            (value / 1_000_000) as nat,
        ),
        value >= 0 && value % 1_000_000 != 0 ==> millionths_text(value) == number_text(
            (value / 1_000_000) as nat,
        ) + seq!['.'] + fraction_text((value % 1_000_000) as nat),
{
    reveal_strlit("-");
    reveal_strlit("");
    reveal_strlit(".");
    assert("-"@ =~= seq!['-']);
    assert("."@ =~= seq!['.']);
    if value >= 0 {
        let size = value as nat;
        let whole = number_text(size / 1_000_000);
        assert(""@ + whole =~= whole);
        if value > 0 {
            if size % 1_000_000 == 0 {
                assert("-"@ + whole =~= seq!['-'] + whole);
            } else {
                assert("-"@ + whole + "."@ + fraction_text(size % 1_000_000) =~= seq!['-'] + (whole
                    + "."@ + fraction_text(size % 1_000_000)));
            }
        }
    }
}

} // verus!
