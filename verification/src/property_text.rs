//! Editing the properties of symbols in the text of a schematic.
//!
//! Positions are those of bytes. An edit touches nothing but the characters
//! that it names, so the rest of the file keeps the shape its writer gave it.

use crate::chars::chars_of;
use crate::text::text_eq;
use vstd::prelude::*;
use vstd::string::*;
use vstd::utf8::*;

verus! {

/// A change to a text: the bytes from `start` up to `end` give way to `text`.
#[derive(PartialEq, Eq, Debug)]
pub struct TextEdit {
    pub start: usize,
    pub end: usize,
    pub text: String,
}

/// The content of a [`TextEdit`].
pub struct EditView {
    pub start: int,
    pub end: int,
    pub text: Seq<char>,
}

impl View for TextEdit {
    type V = EditView;

    open spec fn view(&self) -> EditView {
        EditView { start: self.start as int, end: self.end as int, text: self.text@ }
    }
}

/// The contents of a list of edits.
pub open spec fn edit_views(list: Seq<TextEdit>) -> Seq<EditView> {
    Seq::new(list.len(), |i: int| list[i]@)
}

/// The bytes with an edit made to them.
pub open spec fn with_edit(bytes: Seq<u8>, edit: EditView) -> Seq<u8> {
    bytes.subrange(0, edit.start) + encode_utf8(edit.text) + bytes.subrange(
        edit.end,
        bytes.len() as int,
    )
}

/// The bytes with edits made to them, the last of them first.
pub open spec fn with_edits(bytes: Seq<u8>, edits: Seq<EditView>) -> Seq<u8>
    decreases edits.len(),
{
    if edits.len() == 0 {
        bytes
    } else {
        with_edits(with_edit(bytes, edits.last()), edits.drop_last())
    }
}

/// Whether a property has a parameter of its own. Such a one is not set as a
/// custom field too, or one call could set it twice with different values.
pub fn is_reserved_property(name: &str) -> (res: bool)
    ensures
        res == (name@ == "Reference"@ || name@ == "Value"@ || name@ == "Footprint"@ || name@
            == "Datasheet"@),
{
    text_eq(name, "Reference") || text_eq(name, "Value") || text_eq(name, "Footprint") || text_eq(
        name,
        "Datasheet",
    )
}

/// A character as it is written between quotation marks.
pub open spec fn escaped_char(c: char) -> Seq<char> {
    if c == '\\' {
        seq!['\\', '\\']
    } else if c == '"' {
        seq!['\\', '"']
    } else if c == '\n' {
        seq!['\\', 'n']
    } else if c == '\r' {
        seq!['\\', 'r']
    } else if c == '\t' {
        seq!['\\', 't']
    } else {
        seq![c]
    }
}

/// A text as it is written between quotation marks.
pub open spec fn escaped(text: Seq<char>) -> Seq<char>
    decreases text.len(),
{
    if text.len() == 0 {
        Seq::empty()
    } else {
        escaped_char(text[0]) + escaped(text.skip(1))
    }
}

/// Writes a text as it stands between quotation marks.
pub fn escape_property_text(value: &str) -> (res: String)
    ensures
        res@ == escaped(value@),
{
    let list = chars_of(value);
    let mut res = String::new();
    let mut i: usize = 0;
    assert(list@.skip(0) =~= list@);
    assert(res@ + escaped(list@) =~= escaped(list@));
    while i < list.len()
        invariant
            i <= list@.len(),
            escaped(list@) == res@ + escaped(list@.skip(i as int)),
        decreases list@.len() - i,
    {
        let ghost before = res@;
        let ghost rest = list@.skip(i as int);
        let c = list[i];
        assert(rest[0] == c);
        assert(rest.skip(1) =~= list@.skip(i + 1));
        if c == '\\' {
            res.push('\\');
            res.push('\\');
        } else if c == '"' {
            res.push('\\');
            res.push('"');
        } else if c == '\n' {
            res.push('\\');
            res.push('n');
        } else if c == '\r' {
            res.push('\\');
            res.push('r');
        } else if c == '\t' {
            res.push('\\');
            res.push('t');
        } else {
            res.push(c);
        }
        assert(res@ =~= before + escaped_char(c));
        assert(before + (escaped_char(c) + escaped(rest.skip(1))) =~= res@ + escaped(rest.skip(1)));
        i += 1;
    }
    assert(res@ + escaped(list@.skip(i as int)) =~= res@);
    res
}

/// The first quotation mark from a position on that no backslash escapes.
pub open spec fn quote_end(bytes: Seq<u8>, at: int, behind_backslash: bool) -> Option<int>
    decreases bytes.len() - at,
{
    if at >= bytes.len() {
        None
    } else if behind_backslash {
        quote_end(bytes, at + 1, false)
    } else if bytes[at] == 92 {
        quote_end(bytes, at + 1, true)
    } else if bytes[at] == 34 {
        Some(at)
    } else {
        quote_end(bytes, at + 1, false)
    }
}

/// Finds the quotation mark that closes the text from a position on.
pub fn closing_quote(content: &str, value_start: usize) -> (res: Option<usize>)
    requires
        value_start <= encode_utf8(content@).len(),
    ensures
        match res {
            Some(at) => quote_end(encode_utf8(content@), value_start as int, false) == Some(
                at as int,
            ) && value_start <= at < encode_utf8(content@).len() && encode_utf8(
                content@,
            )[at as int] == 34,
            None => quote_end(encode_utf8(content@), value_start as int, false) is None,
        },
{
    let bytes = content.as_bytes();
    let mut behind = false;
    let mut at: usize = value_start;
    while at < bytes.len()
        invariant
            value_start <= at <= bytes@.len(),
            bytes@ == encode_utf8(content@),
            quote_end(bytes@, value_start as int, false) == quote_end(bytes@, at as int, behind),
        decreases bytes@.len() - at,
    {
        let byte = bytes[at];
        if behind {
            behind = false;
        } else if byte == 92 {
            behind = true;
        } else if byte == 34 {
            return Some(at);
        }
        at += 1;
    }
    None
}

/// A character is encoded without the byte of another one below 128.
pub proof fn lemma_char_avoids(c: char, other: char)
    requires
        c != other,
        (other as u32) < 128,
    ensures
        forall|i: int|
            0 <= i < encode_scalar(c as u32).len() ==> (#[trigger] encode_scalar(c as u32)[i])
                != other as u32,
{
    let v = c as u32;
    char_is_scalar(c);
    if has_width_1_encoding(v) {
        assert((v & 0x7F) as u8 == v) by (bit_vector)
            requires
                v <= 0x7F,
        ;
        if v == other as u32 {
            char_u32_cast(c, v);
            char_u32_cast(other, v);
        }
    } else {
        let a = ((v >> 6) & 0x1F) as u8;
        let b = ((v >> 12) & 0x0F) as u8;
        let d = ((v >> 18) & 0x7) as u8;
        let e = (v & 0x3F) as u8;
        let f = ((v >> 6) & 0x3F) as u8;
        let g = ((v >> 12) & 0x3F) as u8;
        assert(0xC0 | a >= 0x80) by (bit_vector);
        assert(0xE0 | b >= 0x80) by (bit_vector);
        assert(0xF0 | d >= 0x80) by (bit_vector);
        assert(0x80 | e >= 0x80) by (bit_vector);
        assert(0x80 | f >= 0x80) by (bit_vector);
        assert(0x80 | g >= 0x80) by (bit_vector);
    }
}

/// A character that needs no escape is encoded without quotation marks and
/// backslashes.
proof fn lemma_plain_char(c: char)
    requires
        c != '"',
        c != '\\',
    ensures
        forall|i: int|
            0 <= i < encode_scalar(c as u32).len() ==> (#[trigger] encode_scalar(c as u32)[i]) != 34
                && encode_scalar(c as u32)[i] != 92,
{
    lemma_char_avoids(c, '"');
    lemma_char_avoids(c, '\\');
}

/// Bytes that are neither quotation marks nor backslashes are passed over.
proof fn lemma_passes_over(bytes: Seq<u8>, from: int, to: int)
    requires
        0 <= from <= to <= bytes.len(),
        forall|i: int| from <= i < to ==> (#[trigger] bytes[i]) != 34 && bytes[i] != 92,
    ensures
        quote_end(bytes, from, false) == quote_end(bytes, to, false),
    decreases to - from,
{
    if from < to {
        lemma_passes_over(bytes, from + 1, to);
    }
}

pub proof fn lemma_encode_char(c: char, rest: Seq<char>)
    ensures
        encode_utf8(seq![c] + rest) == encode_scalar(c as u32) + encode_utf8(rest),
{
    let all = seq![c] + rest;
    assert(all.drop_first() =~= rest);
}

/// The bytes of an escaped character are passed over.
proof fn lemma_escaped_char_passes(bytes: Seq<u8>, at: int, c: char)
    requires
        0 <= at,
        at + encode_utf8(escaped_char(c)).len() <= bytes.len(),
        bytes.subrange(at, at + encode_utf8(escaped_char(c)).len()) == encode_utf8(
            escaped_char(c),
        ),
    ensures
        quote_end(bytes, at, false) == quote_end(
            bytes,
            at + encode_utf8(escaped_char(c)).len(),
            false,
        ),
{
    let own = escaped_char(c);
    let code = encode_utf8(own);
    let taken = bytes.subrange(at, at + code.len());
    assert forall|i: int| 0 <= i < code.len() implies bytes[at + i] == #[trigger] code[i] by {
        assert(taken[i] == bytes[at + i]);
    }
    if own.len() == 2 {
        is_ascii_chars_encode_utf8(own);
        assert(own[0] == '\\');
        assert(code[0] == 92);
        assert(bytes[at] == 92);
        reveal_with_fuel(quote_end, 3);
    } else {
        assert(own =~= seq![c] + Seq::empty());
        lemma_encode_char(c, Seq::empty());
        assert(code =~= encode_scalar(c as u32));
        lemma_plain_char(c);
        assert forall|i: int| at <= i < at + code.len() implies (#[trigger] bytes[i]) != 34
            && bytes[i] != 92 by {
            assert(bytes[at + (i - at)] == code[i - at]);
        }
        lemma_passes_over(bytes, at, at + code.len());
    }
}

pub proof fn lemma_encode_concat(a: Seq<char>, b: Seq<char>)
    ensures
        encode_utf8(a + b) == encode_utf8(a) + encode_utf8(b),
    decreases a.len(),
{
    if a.len() == 0 {
        assert(a + b =~= b);
        assert(encode_utf8(a) + encode_utf8(b) =~= encode_utf8(b));
    } else {
        let rest = a.drop_first();
        assert(a + b =~= seq![a[0]] + (rest + b));
        lemma_encode_char(a[0], rest + b);
        assert(a =~= seq![a[0]] + rest);
        lemma_encode_char(a[0], rest);
        lemma_encode_concat(rest, b);
        assert(encode_scalar(a[0] as u32) + (encode_utf8(rest) + encode_utf8(b)) =~= encode_utf8(a)
            + encode_utf8(b));
    }
}

proof fn lemma_escaped_passes(bytes: Seq<u8>, at: int, value: Seq<char>)
    requires
        0 <= at,
        at + encode_utf8(escaped(value)).len() <= bytes.len(),
        bytes.subrange(at, at + encode_utf8(escaped(value)).len()) == encode_utf8(escaped(value)),
    ensures
        quote_end(bytes, at, false) == quote_end(
            bytes,
            at + encode_utf8(escaped(value)).len(),
            false,
        ),
    decreases value.len(),
{
    if value.len() == 0 {
        assert(encode_utf8(escaped(value)).len() == 0);
    } else {
        let (first, rest) = (escaped_char(value[0]), escaped(value.skip(1)));
        lemma_encode_concat(first, rest);
        let (a, b) = (encode_utf8(first), encode_utf8(rest));
        let whole = bytes.subrange(at, at + a.len() + b.len());
        assert(whole == a + b);
        assert(bytes.subrange(at, at + a.len()) =~= whole.subrange(0, a.len() as int));
        assert((a + b).subrange(0, a.len() as int) =~= a);
        assert(bytes.subrange(at + a.len(), at + a.len() + b.len()) =~= whole.subrange(
            a.len() as int,
            (a.len() + b.len()) as int,
        ));
        assert((a + b).subrange(a.len() as int, (a.len() + b.len()) as int) =~= b);
        lemma_escaped_char_passes(bytes, at, value[0]);
        lemma_escaped_passes(bytes, at + a.len(), value.skip(1));
    }
}

/// Whatever a value holds, once it is escaped and put between quotation marks
/// the closing mark that is found is its own.
pub proof fn law_escaped_values_end_at_their_quote(
    head: Seq<u8>,
    value: Seq<char>,
    tail: Seq<u8>,
)
    ensures
        quote_end(
            head + encode_utf8(escaped(value)) + seq![34u8] + tail,
            head.len() as int,
            false,
        ) == Some((head.len() + encode_utf8(escaped(value)).len()) as int),
{
    let code = encode_utf8(escaped(value));
    let bytes = head + code + seq![34u8] + tail;
    let at = head.len() as int;
    assert(bytes.subrange(at, at + code.len()) =~= code);
    lemma_escaped_passes(bytes, at, value);
    assert(bytes[at + code.len()] == 34);
}

} // verus!
