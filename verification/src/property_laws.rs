//! What was written into the text of a schematic is read back as it was
//! written.

use crate::property_edit::{
    all_in, block_change, block_indent, property_block, property_start, reference_entry,
    renames, replacements, BlockChange,
};
use crate::property_text::{
    escaped, escaped_char, law_escaped_values_end_at_their_quote, lemma_char_avoids,
    lemma_encode_char, lemma_encode_concat, quote_end, with_edit, EditView,
};
use crate::replacement::lib_id_range;
use crate::scan::{
    blanks_end, first_in, last_byte, lemma_after_ascii, lemma_blanks, lemma_first_in_found,
    lemma_first_in_is, matches_at, part,
};
use vstd::prelude::*;
use vstd::string::*;
use vstd::utf8::*;

verus! {

/// The value of a property in a block, as it is written between its quotation
/// marks.
pub open spec fn value_in_block(bytes: Seq<u8>, field: Seq<char>, start: int, end: int) -> Option<
    Seq<u8>,
> {
    value_after(bytes, encode_utf8(property_start(field)), start, end)
}

/// What stands behind the first place of a text in a range, up to the closing
/// quotation mark.
pub open spec fn value_after(bytes: Seq<u8>, search: Seq<u8>, start: int, end: int) -> Option<
    Seq<u8>,
> {
    match first_in(bytes, search, start, end) {
        None => None,
        Some(at) => match quote_end(bytes, at + search.len(), false) {
            None => None,
            Some(close) => Some(bytes.subrange(at + search.len(), close)),
        },
    }
}

/// A text without a character below 128 is encoded without its byte.
pub proof fn lemma_text_avoids(text: Seq<char>, other: char)
    requires
        !text.contains(other),
        (other as u32) < 128,
    ensures
        forall|i: int|
            0 <= i < encode_utf8(text).len() ==> (#[trigger] encode_utf8(text)[i]) != other as u32,
    decreases text.len(),
{
    if text.len() > 0 {
        let rest = text.drop_first();
        assert(text =~= seq![text[0]] + rest);
        assert(text.contains(text[0]));
        assert(!rest.contains(other)) by {
            if rest.contains(other) {
                assert(text[rest.index_of(other) + 1] == other);
            }
        }
        lemma_char_avoids(text[0], other);
        lemma_text_avoids(rest, other);
        lemma_encode_char(text[0], rest);
        let (a, b) = (encode_scalar(text[0] as u32), encode_utf8(rest));
        assert forall|i: int| 0 <= i < encode_utf8(text).len() implies (#[trigger] encode_utf8(
            text,
        )[i]) != other as u32 by {
            if i < a.len() {
                assert(encode_utf8(text)[i] == a[i]);
            } else {
                assert(encode_utf8(text)[i] == b[i - a.len()]);
            }
        }
    }
}

/// An escaped text holds no line break.
proof fn lemma_escaped_is_one_line(text: Seq<char>)
    ensures
        !escaped(text).contains('\n'),
    decreases text.len(),
{
    if text.len() > 0 {
        let (a, b) = (escaped_char(text[0]), escaped(text.skip(1)));
        lemma_escaped_is_one_line(text.skip(1));
        assert(!a.contains('\n'));
        if (a + b).contains('\n') {
            let i = (a + b).index_of('\n');
            if i < a.len() {
                assert(a[i] == '\n');
            } else {
                assert(b[i - a.len()] == '\n');
            }
        }
    }
}

/// What the start of a property looks like in bytes.
proof fn lemma_start_bytes(field: Seq<char>)
    ensures
        ({
            let search = encode_utf8(property_start(field));
            &&& search.len() > 11
            &&& search[0] == 40
            &&& forall|k: int| 0 <= k < search.len() ==> #[trigger] search[k] != 10
        }),
{
    reveal_strlit("(property \"");
    reveal_strlit("\" \"");
    let text = property_start(field);
    let head = "(property \""@;
    let tail = escaped(field) + "\" \""@;
    assert(text =~= head + tail);
    lemma_encode_concat(head, tail);
    is_ascii_chars_encode_utf8(head);
    let search = encode_utf8(text);
    assert(encode_utf8(head).len() == 11);
    assert forall|k: int| 0 <= k < 11 implies #[trigger] search[k] == encode_utf8(head)[k] by {}
    crate::property_edit::lemma_encode_nonempty("\" \""@);
    lemma_encode_concat(escaped(field), "\" \""@);
    lemma_escaped_is_one_line(field);
    assert(!text.contains('\n')) by {
        if text.contains('\n') {
            let i = text.index_of('\n');
            if i < 11 {
                assert(head[i] == '\n');
            } else if i < 11 + escaped(field).len() {
                assert(escaped(field)[i - 11] == '\n');
            } else {
                assert("\" \""@[i - 11 - escaped(field).len()] == '\n');
            }
        }
    }
    lemma_text_avoids(text, '\n');
    assert forall|k: int| 0 <= k < search.len() implies #[trigger] search[k] != 10 by {
        assert(encode_utf8(text)[k] != '\n' as u32);
    }
}

proof fn lemma_quote_found(bytes: Seq<u8>, at: int, behind: bool)
    ensures
        quote_end(bytes, at, behind) matches Some(close) ==> at <= close < bytes.len()
            && bytes[close] == 34,
    decreases bytes.len() - at,
{
    if at < bytes.len() {
        lemma_quote_found(bytes, at + 1, false);
        lemma_quote_found(bytes, at + 1, true);
    }
}

/// What follows when a text stands at a place, none stands before it, and a
/// value and a quotation mark follow.
proof fn lemma_reads_back(
    bytes: Seq<u8>,
    search: Seq<u8>,
    value: Seq<char>,
    start: int,
    end: int,
    at: int,
)
    requires
        ({
            let code = encode_utf8(escaped(value));
            &&& 0 <= start <= at
            &&& at + search.len() <= end <= bytes.len()
            &&& matches_at(bytes, search, at)
            &&& forall|p: int| start <= p < at ==> !matches_at(bytes, search, p)
            &&& at + search.len() + code.len() < bytes.len()
            &&& bytes.subrange(at + search.len(), at + search.len() + code.len()) == code
            &&& bytes[at + search.len() + code.len()] == 34
        }),
    ensures
        value_after(bytes, search, start, end) == Some(encode_utf8(escaped(value))),
{
    let code = encode_utf8(escaped(value));
    let from = at + search.len();
    lemma_first_in_is(bytes, search, start, end, at);
    let head = bytes.subrange(0, from);
    let tail = bytes.subrange(from + code.len() + 1, bytes.len() as int);
    assert(bytes =~= head + code + seq![34u8] + tail);
    law_escaped_values_end_at_their_quote(head, value, tail);
}

/// Setting a property and reading it gives back what was set, whether the block
/// had the property before or gets it now. The block grows or shrinks with its
/// text.
pub proof fn law_a_set_property_reads_back(
    bytes: Seq<u8>,
    reference: Seq<char>,
    field: Seq<char>,
    value: Seq<char>,
    add_missing: bool,
    numbers: Map<Seq<char>, String>,
    block: (usize, usize),
    edit: EditView,
)
    requires
        valid_utf8(bytes),
        block.0 <= block.1 <= bytes.len(),
        is_char_boundary(bytes, block.0 as int),
        edit.end <= block.1,
        ({
            let change = block_change(
                bytes,
                reference,
                field,
                value,
                add_missing,
                numbers,
                block,
            );
            change == (BlockChange::Update { edit }) || change == (BlockChange::Add { edit })
        }),
    ensures
        ({
            let after = with_edit(bytes, edit);
            value_in_block(
                after,
                field,
                block.0 as int,
                block.1 + after.len() - bytes.len(),
            ) == Some(encode_utf8(escaped(value)))
        }),
{
    let search = encode_utf8(property_start(field));
    let (start, end) = (block.0 as int, block.1 as int);
    lemma_first_in_found(bytes, search, start, end);
    match first_in(bytes, search, start, end) {
        Some(at) => {
            lemma_quote_found(bytes, at + search.len(), false);
            lemma_updated(bytes, search, value, start, end, at, edit);
        },
        None => {
            lemma_added(bytes, reference, field, value, numbers, start, end, edit);
        },
    }
}

/// Replacing the library symbol of a unit and reading it gives back what was
/// set. The block grows or shrinks with its text.
pub proof fn law_a_replaced_symbol_reads_back(
    bytes: Seq<u8>,
    block: (usize, usize),
    lib_id: Seq<char>,
    range: (int, int),
)
    requires
        block.0 <= block.1 <= bytes.len(),
        lib_id_range(bytes, block) == Ok::<(int, int), bool>(range),
        range.1 <= block.1,
    ensures
        ({
            let edit = EditView { start: range.0, end: range.1, text: escaped(lib_id) };
            let after = with_edit(bytes, edit);
            value_after(
                after,
                encode_utf8("(lib_id \""@),
                block.0 as int,
                block.1 + after.len() - bytes.len(),
            ) == Some(encode_utf8(escaped(lib_id)))
        }),
{
    let search = encode_utf8("(lib_id \""@);
    let edit = EditView { start: range.0, end: range.1, text: escaped(lib_id) };
    lemma_first_in_found(bytes, search, block.0 as int, block.1 as int);
    lemma_quote_found(bytes, range.0, false);
    lemma_updated(
        bytes,
        search,
        lib_id,
        block.0 as int,
        block.1 as int,
        range.0 - search.len(),
        edit,
    );
}

proof fn lemma_updated(
    bytes: Seq<u8>,
    search: Seq<u8>,
    value: Seq<char>,
    start: int,
    end: int,
    at: int,
    edit: EditView,
)
    requires
        0 <= start <= at,
        at + search.len() <= end <= bytes.len(),
        matches_at(bytes, search, at),
        forall|p: int| start <= p < at ==> !matches_at(bytes, search, p),
        edit.start == at + search.len() <= edit.end <= end,
        edit.end < bytes.len(),
        bytes[edit.end] == 34,
        edit.text == escaped(value),
    ensures
        ({
            let after = with_edit(bytes, edit);
            value_after(after, search, start, end + after.len() - bytes.len()) == Some(
                encode_utf8(escaped(value)),
            )
        }),
{
    let code = encode_utf8(escaped(value));
    let after = with_edit(bytes, edit);
    let from = edit.start;
    assert forall|i: int| 0 <= i < from implies #[trigger] after[i] == bytes[i] by {}
    assert forall|p: int| 0 <= p <= at implies matches_at(after, search, p) == matches_at(
        bytes,
        search,
        p,
    ) by {
        assert(after.subrange(p, p + search.len()) =~= bytes.subrange(p, p + search.len()));
    }
    assert(after.subrange(from, from + code.len()) =~= code);
    assert(after[from + code.len()] == bytes[edit.end]);
    lemma_reads_back(after, search, value, start, end + after.len() - bytes.len(), at);
}

/// The indentation of a block, in bytes, is made of spaces and tabs.
proof fn lemma_indent_bytes(bytes: Seq<u8>, start: int, end: int)
    requires
        valid_utf8(bytes),
        0 <= start <= end <= bytes.len(),
        is_char_boundary(bytes, start),
    ensures
        forall|i: int|
            0 <= i < encode_utf8(block_indent(bytes, start, end)).len() ==> (
            #[trigger] encode_utf8(block_indent(bytes, start, end))[i] == 32 || encode_utf8(
                block_indent(bytes, start, end),
            )[i] == 9),
{
    let needle = encode_utf8("(property "@);
    let indent = encode_utf8(block_indent(bytes, start, end));
    lemma_first_in_found(bytes, needle, start, end);
    match first_in(bytes, needle, start, end) {
        None => {
            reveal_strlit("\t\t");
            is_ascii_chars_encode_utf8("\t\t"@);
        },
        Some(at) => {
            lemma_last_byte_range(bytes, 10, start, at);
            let from = match last_byte(bytes, 10, start, at) {
                None => start,
                Some(line) => line + 1,
            };
            if last_byte(bytes, 10, start, at) is Some {
                lemma_after_ascii(bytes, from - 1);
            }
            lemma_blanks(bytes, from, at);
            let to = blanks_end(bytes, from, at);
            if from < to {
                assert(bytes[to - 1] == 32 || bytes[to - 1] == 9);
                lemma_after_ascii(bytes, to - 1);
            }
            lemma_part_bytes(bytes, from, to);
            assert(indent == bytes.subrange(from, to));
            assert forall|i: int| 0 <= i < indent.len() implies (#[trigger] indent[i] == 32
                || indent[i] == 9) by {
                assert(indent[i] == bytes[from + i]);
            }
        },
    }
}

pub proof fn lemma_last_byte_range(hay: Seq<u8>, byte: u8, from: int, to: int)
    ensures
        last_byte(hay, byte, from, to) matches Some(at) ==> from <= at < to && hay[at] == byte,
    decreases to - from,
{
    if from < to {
        lemma_last_byte_range(hay, byte, from, to - 1);
    }
}

/// The part of a text between two characters is encoded as it stands there.
pub proof fn lemma_part_bytes(bytes: Seq<u8>, from: int, to: int)
    requires
        valid_utf8(bytes),
        0 <= from <= to <= bytes.len(),
        is_char_boundary(bytes, from),
        is_char_boundary(bytes, to),
    ensures
        encode_utf8(part(bytes, from, to)) == bytes.subrange(from, to),
{
    valid_utf8_split(bytes, to);
    let head = bytes.subrange(0, to);
    if from == to {
        is_char_boundary_start_end_of_seq(head);
    } else {
        assert(head[from] == bytes[from]);
        is_char_boundary_iff_not_is_continuation_byte(bytes, from);
        is_char_boundary_iff_not_is_continuation_byte(head, from);
    }
    valid_utf8_split(head, from);
    assert(head.subrange(from, to) =~= bytes.subrange(from, to));
    decode_utf8_encode_utf8(bytes.subrange(from, to));
}

#[verifier::rlimit(30)]
proof fn lemma_added(
    bytes: Seq<u8>,
    reference: Seq<char>,
    field: Seq<char>,
    value: Seq<char>,
    numbers: Map<Seq<char>, String>,
    start: int,
    end: int,
    edit: EditView,
)
    requires
        valid_utf8(bytes),
        0 <= start <= end <= bytes.len(),
        is_char_boundary(bytes, start),
        forall|p: int|
            start <= p && p + encode_utf8(property_start(field)).len() <= end ==> !matches_at(
                bytes,
                encode_utf8(property_start(field)),
                p,
            ),
        crate::property_edit::insertion(bytes, reference, start, end, field, value, numbers) == Ok::<
            EditView,
            Seq<char>,
        >(edit),
    ensures
        ({
            let after = with_edit(bytes, edit);
            value_in_block(after, field, start, end + after.len() - bytes.len()) == Some(
                encode_utf8(escaped(value)),
            )
        }),
{
    let search = encode_utf8(property_start(field));
    let code = encode_utf8(escaped(value));
    let after = with_edit(bytes, edit);
    let close = edit.start;
    let indent = block_indent(bytes, start, end);
    let lead = encode_utf8(indent);
    lemma_last_byte_range(bytes, 41, start, end);
    lemma_start_bytes(field);
    lemma_indent_bytes(bytes, start, end);
    let anchor = crate::property_edit::anchor_of(bytes, start, end, numbers)->0;
    let rest = choose|rest: Seq<char>|
        edit.text == "\n"@ + indent + property_start(field) + escaped(value) + ("\""@ + rest);
    lemma_block_shape(indent, field, value, anchor.0, anchor.1);
    let line = "\n"@;
    reveal_strlit("\n");
    is_ascii_chars_encode_utf8("\n"@);
    reveal_strlit("\"");
    is_ascii_chars_encode_utf8("\""@);
    lemma_encode_concat(line, indent);
    lemma_encode_concat(line + indent, property_start(field));
    lemma_encode_concat(line + indent + property_start(field), escaped(value));
    lemma_encode_concat(
        line + indent + property_start(field) + escaped(value),
        "\""@ + rest,
    );
    lemma_encode_concat("\""@, rest);
    let text = encode_utf8(edit.text);
    assert(text == seq![10u8] + lead + search + code + (seq![34u8] + encode_utf8(rest))) by {
        assert(encode_utf8(line) =~= seq![10u8]);
        assert(encode_utf8("\""@) =~= seq![34u8]);
    }
    let at = close + 1 + lead.len();
    assert forall|i: int| 0 <= i < close implies #[trigger] after[i] == bytes[i] by {}
    assert(after[close] == 10) by {
        assert(text[0] == 10);
    }
    assert(after.subrange(close + 1, at) =~= lead);
    assert(after.subrange(at, at + search.len()) =~= search);
    assert(after.subrange(at + search.len(), at + search.len() + code.len()) =~= code);
    assert(after[at + search.len() + code.len()] == 34);
    assert(matches_at(after, search, at));
    assert(after[at] == 40) by {
        assert(after.subrange(at, at + search.len())[0] == search[0]);
    }
    assert forall|p: int| start <= p < at implies !matches_at(after, search, p) by {
        if matches_at(after, search, p) {
            let seen = after.subrange(p, p + search.len());
            if p + search.len() <= close {
                assert(bytes.subrange(p, p + search.len()) =~= seen);
                assert(matches_at(bytes, search, p));
            } else if p <= close {
                assert(seen[close - p] == search[close - p]);
            } else {
                let k = p - close - 1;
                assert(after.subrange(close + 1, at)[k] == after[p]);
                assert(lead[k] == 32 || lead[k] == 9);
                assert(seen[0] == search[0]);
            }
        }
    }
    lemma_reads_back(after, search, value, start, end + after.len() - bytes.len(), at);
}

/// A new property is its start, its value, a quotation mark and the rest.
proof fn lemma_block_shape(
    indent: Seq<char>,
    field: Seq<char>,
    value: Seq<char>,
    x: Seq<char>,
    y: Seq<char>,
)
    ensures
        exists|rest: Seq<char>|
            property_block(indent, field, value, x, y) == "\n"@ + indent + property_start(field)
                + escaped(value) + ("\""@ + rest),
{
    reveal_strlit("\"\n");
    reveal_strlit("\"");
    let head = "\n"@ + indent + property_start(field) + escaped(value);
    let whole = property_block(indent, field, value, x, y);
    let rest = whole.subrange((head.len() + 1) as int, whole.len() as int);
    let start = "\n"@ + indent + "(property \""@ + escaped(field) + "\" \""@ + escaped(value)
        + "\"\n"@;
    assert(start =~= head + "\"\n"@);
    assert(whole.len() >= start.len());
    assert(whole.subrange(0, start.len() as int) =~= start);
    assert(whole =~= head + ("\""@ + rest)) by {
        assert forall|i: int| 0 <= i < whole.len() implies #[trigger] whole[i] == (head + ("\""@
            + rest))[i] by {
            if i <= head.len() {
                assert(whole.subrange(0, start.len() as int)[i] == whole[i]);
            }
        }
    }
}

/// One of the edits rewrites this position.
pub open spec fn rewritten(edits: Seq<EditView>, p: int) -> bool {
    exists|i: int| 0 <= i < edits.len() && (#[trigger] edits[i]).start <= p < edits[i].end
}

proof fn lemma_place_is_covered(hay: Seq<u8>, needle: Seq<u8>, from: int, to: int, p: int)
    requires
        needle.len() > 0,
        0 <= from <= p,
        p + needle.len() <= to <= hay.len(),
        matches_at(hay, needle, p),
    ensures
        exists|i: int|
            0 <= i < all_in(hay, needle, from, to).len() && (#[trigger] all_in(
                hay,
                needle,
                from,
                to,
            )[i]) <= p < all_in(hay, needle, from, to)[i] + needle.len(),
    decreases to - from,
{
    let list = all_in(hay, needle, from, to);
    lemma_first_in_found(hay, needle, from, to);
    let at = first_in(hay, needle, from, to)->0;
    assert(list[0] == at);
    if p >= at + needle.len() {
        let next = at + needle.len();
        let rest = all_in(hay, needle, next, to);
        lemma_place_is_covered(hay, needle, next, to, p);
        let i = choose|i: int|
            0 <= i < rest.len() && (#[trigger] rest[i]) <= p < rest[i] + needle.len();
        assert(list[i + 1] == rest[i]);
    }
}

/// A rename reaches every instance path: wherever one of the blocks names the
/// old reference, an edit rewrites that place.
pub proof fn law_a_rename_reaches_every_entry(
    bytes: Seq<u8>,
    old_ref: Seq<char>,
    new_entry: Seq<char>,
    blocks: Seq<(usize, usize)>,
    n: nat,
    b: int,
    p: int,
)
    requires
        0 <= b < n <= blocks.len(),
        blocks[b].0 <= p,
        p + encode_utf8(reference_entry(old_ref)).len() <= blocks[b].1 <= bytes.len(),
        matches_at(bytes, encode_utf8(reference_entry(old_ref)), p),
    ensures
        rewritten(
            renames(bytes, encode_utf8(reference_entry(old_ref)), new_entry, blocks, n),
            p,
        ),
    decreases n,
{
    let needle = encode_utf8(reference_entry(old_ref));
    reveal_strlit("(reference \"");
    crate::property_edit::lemma_encode_nonempty(reference_entry(old_ref));
    let all = renames(bytes, needle, new_entry, blocks, n);
    let before = renames(bytes, needle, new_entry, blocks, (n - 1) as nat);
    if b < n - 1 {
        law_a_rename_reaches_every_entry(
            bytes,
            old_ref,
            new_entry,
            blocks,
            (n - 1) as nat,
            b,
            p,
        );
        let i = choose|i: int|
            0 <= i < before.len() && (#[trigger] before[i]).start <= p < before[i].end;
        assert(all[i] == before[i]);
    } else {
        let places = all_in(bytes, needle, blocks[b].0 as int, blocks[b].1 as int);
        lemma_place_is_covered(bytes, needle, blocks[b].0 as int, blocks[b].1 as int, p);
        let i = choose|i: int|
            0 <= i < places.len() && (#[trigger] places[i]) <= p < places[i] + needle.len();
        let own = replacements(places, needle.len() as int, new_entry);
        assert(all[before.len() + i] == own[i]);
    }
}

} // verus!
