//! Setting the properties of a component in the text of a schematic.

use crate::property_text::{
    closing_quote, edit_views, escape_property_text, escaped, quote_end, EditView, TextEdit,
};
use crate::scan::{
    blanks_end, find_blanks_end, find_byte, find_in, find_last_byte, first_byte, first_in,
    last_byte, lemma_after_ascii, lemma_ascii_is_boundary, matches_at, part, slice, split_words,
    words,
};
use crate::text::{concat3, concat5, owned};
use crate::text_map::TextMap;
use vstd::prelude::*;
use vstd::string::*;
use vstd::utf8::*;

verus! {

/// How many copies of a property were changed and how many were added.
#[derive(Clone, Copy, PartialEq, Eq, Debug, Structural)]
pub struct PropertyWriteCounts {
    pub updated: usize,
    pub added: usize,
}

/// The edits that set a property, with their counts.
#[derive(PartialEq, Eq, Debug)]
pub struct PropertyEdits {
    pub edits: Vec<TextEdit>,
    pub counts: PropertyWriteCounts,
}

/// The ranges lie in the text and begin where characters begin.
pub open spec fn ranges_fit(bytes: Seq<u8>, blocks: Seq<(usize, usize)>) -> bool {
    forall|i: int|
        0 <= i < blocks.len() ==> (#[trigger] blocks[i]).0 <= blocks[i].1 <= bytes.len()
            && is_char_boundary(bytes, blocks[i].0 as int)
}

/// How the property of this name begins, up to its value.
pub open spec fn property_start(field: Seq<char>) -> Seq<char> {
    "(property \""@ + escaped(field) + "\" \""@
}

/// A text that is not empty is not encoded as nothing.
pub proof fn lemma_encode_nonempty(text: Seq<char>)
    requires
        text.len() > 0,
    ensures
        encode_utf8(text).len() > 0,
{
    assert(encode_scalar(text[0] as u32).len() > 0);
}

/// What `(at ` looks like in bytes.
pub proof fn lemma_at_bytes()
    ensures
        encode_utf8("(at "@).len() == 4,
        encode_utf8("(at "@)[0] == 40,
        encode_utf8("(at "@)[3] == 32,
{
    reveal_strlit("(at ");
    is_ascii_chars_encode_utf8("(at "@);
}

/// Finds the first place of a text in a range.
pub fn find_text(content: &str, needle: &str, from: usize, to: usize) -> (res: Option<usize>)
    requires
        from <= to <= encode_utf8(content@).len(),
        needle@.len() > 0,
    ensures
        match res {
            Some(at) => first_in(
                encode_utf8(content@),
                encode_utf8(needle@),
                from as int,
                to as int,
            ) == Some(at as int) && from <= at && at + encode_utf8(needle@).len() <= to
                && matches_at(encode_utf8(content@), encode_utf8(needle@), at as int),
            None => first_in(
                encode_utf8(content@),
                encode_utf8(needle@),
                from as int,
                to as int,
            ) is None,
        },
{
    proof {
        lemma_encode_nonempty(needle@);
    }
    find_in(content.as_bytes(), needle.as_bytes(), from, to)
}

/// The words of the first placement in a range.
pub open spec fn placement_words(bytes: Seq<u8>, start: int, end: int) -> Option<Seq<Seq<char>>> {
    match first_in(bytes, encode_utf8("(at "@), start, end) {
        None => None,
        Some(at) => match first_byte(bytes, 41, at + 4, end) {
            None => None,
            Some(close) => Some(words(part(bytes, at + 4, close))),
        },
    }
}

/// The place of a symbol, as its numbers are written. `numbers` tells for each
/// text that is a number how that number is written.
pub open spec fn anchor_of(
    bytes: Seq<u8>,
    start: int,
    end: int,
    numbers: Map<Seq<char>, String>,
) -> Option<(Seq<char>, Seq<char>)> {
    match placement_words(bytes, start, end) {
        None => None,
        Some(list) => if list.len() >= 2 && numbers.contains_key(list[0]) && numbers.contains_key(
            list[1],
        ) {
            Some((numbers[list[0]]@, numbers[list[1]]@))
        } else {
            None
        },
    }
}

/// The spaces and tabs that the line of a block's first property begins with.
pub open spec fn block_indent(bytes: Seq<u8>, start: int, end: int) -> Seq<char> {
    match first_in(bytes, encode_utf8("(property "@), start, end) {
        None => "\t\t"@,
        Some(at) => {
            let from = match last_byte(bytes, 10, start, at) {
                None => start,
                Some(line) => line + 1,
            };
            part(bytes, from, blanks_end(bytes, from, at))
        },
    }
}

/// A new property with its value, hidden, at a place.
pub open spec fn property_block(
    indent: Seq<char>,
    name: Seq<char>,
    value: Seq<char>,
    x: Seq<char>,
    y: Seq<char>,
) -> Seq<char> {
    "\n"@ + indent + "(property \""@ + escaped(name) + "\" \""@ + escaped(value) + "\"\n"@ + indent
        + "\t(at "@ + x + " "@ + y + " 0)\n"@ + indent + "\t(hide yes)\n"@ + indent
        + "\t(effects\n"@ + indent + "\t\t(font\n"@ + indent + "\t\t\t(size 1.27 1.27)\n"@ + indent
        + "\t\t)\n"@ + indent + "\t)\n"@ + indent + ")"@
}

/// The edit that adds a property to a block, or the reason why there is none.
pub open spec fn insertion(
    bytes: Seq<u8>,
    reference: Seq<char>,
    start: int,
    end: int,
    name: Seq<char>,
    value: Seq<char>,
    numbers: Map<Seq<char>, String>,
) -> Result<EditView, Seq<char>> {
    match anchor_of(bytes, start, end, numbers) {
        None => Err("'"@ + reference + "' has no readable (at …) placement"@),
        Some(anchor) => match last_byte(bytes, 41, start, end) {
            None => Err("symbol block for '"@ + reference + "' is malformed"@),
            Some(close) => Ok(
                EditView {
                    start: close,
                    end: close,
                    text: property_block(
                        block_indent(bytes, start, end),
                        name,
                        value,
                        anchor.0,
                        anchor.1,
                    ),
                },
            ),
        },
    }
}

fn read_anchor(content: &str, start: usize, end: usize, numbers: &TextMap<String>) -> (res: Option<
    (String, String),
>)
    requires
        start <= end <= encode_utf8(content@).len(),
    ensures
        match res {
            Some(pair) => anchor_of(
                encode_utf8(content@),
                start as int,
                end as int,
                numbers@,
            ) == Some((pair.0@, pair.1@)),
            None => anchor_of(
                encode_utf8(content@),
                start as int,
                end as int,
                numbers@,
            ) is None,
        },
{
    let ghost bytes = encode_utf8(content@);
    proof {
        lemma_at_bytes();
        reveal_strlit("(at ");
        encode_utf8_valid_utf8(content@);
    }
    let at = match find_text(content, "(at ", start, end) {
        Some(at) => at,
        None => {
            return None;
        },
    };
    let close = match find_byte(content.as_bytes(), 41, at + 4, end) {
        Some(close) => close,
        None => {
            return None;
        },
    };
    proof {
        let found = bytes.subrange(at as int, at + 4);
        assert(found[3] == bytes[at + 3]);
        lemma_after_ascii(bytes, at + 3);
        lemma_ascii_is_boundary(bytes, close as int);
    }
    let list = split_words(slice(content, at + 4, close));
    let ghost all = words(part(bytes, at + 4, close as int));
    assert(all.len() == list@.len());
    if list.len() < 2 {
        return None;
    }
    assert(all[0] == list@[0]@ && all[1] == list@[1]@);
    match (numbers.get(list[0].as_str()), numbers.get(list[1].as_str())) {
        (Some(x), Some(y)) => Some((x.clone(), y.clone())),
        _ => None,
    }
}

fn read_indent(content: &str, start: usize, end: usize) -> (res: String)
    requires
        start <= end <= encode_utf8(content@).len(),
        is_char_boundary(encode_utf8(content@), start as int),
    ensures
        res@ == block_indent(encode_utf8(content@), start as int, end as int),
{
    let ghost bytes = encode_utf8(content@);
    proof {
        reveal_strlit("(property ");
        is_ascii_chars_encode_utf8("(property "@);
        encode_utf8_valid_utf8(content@);
    }
    match find_text(content, "(property ", start, end) {
        None => owned("\t\t"),
        Some(at) => {
            let from: usize = match find_last_byte(content.as_bytes(), 10, start, at) {
                None => start,
                Some(line) => {
                    proof {
                        lemma_after_ascii(bytes, line as int);
                    }
                    line + 1
                },
            };
            let to = find_blanks_end(content.as_bytes(), from, at);
            proof {
                if from < to {
                    assert(bytes[to - 1] == 32 || bytes[to - 1] == 9);
                    lemma_after_ascii(bytes, to - 1);
                }
            }
            owned(slice(content, from, to))
        },
    }
}

fn write_property_block(indent: &str, name: &str, value: &str, x: &str, y: &str) -> (res: String)
    ensures
        res@ == property_block(indent@, name@, value@, x@, y@),
{
    let name_text = escape_property_text(name);
    let value_text = escape_property_text(value);
    let mut text = concat5("\n", indent, "(property \"", name_text.as_str(), "\" \"");
    text.append(value_text.as_str());
    text.append("\"\n");
    text.append(indent);
    text.append("\t(at ");
    text.append(x);
    text.append(" ");
    text.append(y);
    text.append(" 0)\n");
    text.append(indent);
    text.append("\t(hide yes)\n");
    text.append(indent);
    text.append("\t(effects\n");
    text.append(indent);
    text.append("\t\t(font\n");
    text.append(indent);
    text.append("\t\t\t(size 1.27 1.27)\n");
    text.append(indent);
    text.append("\t\t)\n");
    text.append(indent);
    text.append("\t)\n");
    text.append(indent);
    text.append(")");
    text
}

/// Builds the edit that adds a property to one placed unit. The property is
/// anchored at the unit's own place and takes over its indentation.
pub fn property_insert_edit(
    content: &str,
    reference: &str,
    start: usize,
    end: usize,
    name: &str,
    value: &str,
    numbers: &TextMap<String>,
) -> (res: Result<TextEdit, String>)
    requires
        start <= end <= encode_utf8(content@).len(),
        is_char_boundary(encode_utf8(content@), start as int),
    ensures
        match insertion(
            encode_utf8(content@),
            reference@,
            start as int,
            end as int,
            name@,
            value@,
            numbers@,
        ) {
            Ok(edit) => res matches Ok(done) && done@ == edit,
            Err(reason) => res matches Err(message) && message@ == reason,
        },
{
    let (x, y) = match read_anchor(content, start, end, numbers) {
        Some(pair) => pair,
        None => {
            return Err(concat3("'", reference, "' has no readable (at …) placement"));
        },
    };
    let indent = read_indent(content, start, end);
    let text = write_property_block(indent.as_str(), name, value, x.as_str(), y.as_str());
    match find_last_byte(content.as_bytes(), 41, start, end) {
        Some(close) => Ok(TextEdit { start: close, end: close, text }),
        None => Err(concat3("symbol block for '", reference, "' is malformed")),
    }
}

/// What setting a property does in one block: it changes the property that is
/// there, adds it where it is missing and may be added, or fails.
pub enum BlockChange {
    Update { edit: EditView },
    Add { edit: EditView },
    Refuse { reason: Seq<char> },
}

/// What setting a property does in one block.
pub open spec fn block_change(
    bytes: Seq<u8>,
    reference: Seq<char>,
    field: Seq<char>,
    new_value: Seq<char>,
    add_missing: bool,
    numbers: Map<Seq<char>, String>,
    block: (usize, usize),
) -> BlockChange {
    let search = encode_utf8(property_start(field));
    let (start, end) = (block.0 as int, block.1 as int);
    match first_in(bytes, search, start, end) {
        Some(at) => match quote_end(bytes, at + search.len(), false) {
            None => BlockChange::Refuse {
                reason: "'"@ + field + "' property on '"@ + reference + "' is malformed"@,
            },
            Some(close) => BlockChange::Update {
                edit: EditView {
                    start: at + search.len(),
                    end: close,
                    text: escaped(new_value),
                },
            },
        },
        None => if add_missing {
            match insertion(bytes, reference, start, end, field, new_value, numbers) {
                Ok(edit) => BlockChange::Add { edit },
                Err(reason) => BlockChange::Refuse { reason },
            }
        } else {
            BlockChange::Refuse {
                reason: "'"@ + reference + "' is missing the shared '"@ + field
                    + "' property on one of its placed units"@,
            }
        },
    }
}

/// The edits of the first `n` blocks with the counts of changed and of added
/// properties, or the first reason against them.
pub open spec fn property_edits(
    bytes: Seq<u8>,
    reference: Seq<char>,
    field: Seq<char>,
    new_value: Seq<char>,
    add_missing: bool,
    numbers: Map<Seq<char>, String>,
    blocks: Seq<(usize, usize)>,
    n: nat,
) -> Result<(Seq<EditView>, nat, nat), Seq<char>>
    decreases n,
{
    if n == 0 {
        Ok((Seq::empty(), 0, 0))
    } else {
        match property_edits(
            bytes,
            reference,
            field,
            new_value,
            add_missing,
            numbers,
            blocks,
            (n - 1) as nat,
        ) {
            Err(reason) => Err(reason),
            Ok(done) => match block_change(
                bytes,
                reference,
                field,
                new_value,
                add_missing,
                numbers,
                blocks[n - 1],
            ) {
                BlockChange::Update { edit } => Ok((done.0.push(edit), done.1 + 1, done.2)),
                BlockChange::Add { edit } => Ok((done.0.push(edit), done.1, done.2 + 1)),
                BlockChange::Refuse { reason } => Err(reason),
            },
        }
    }
}

proof fn lemma_edits_reason_stays(
    bytes: Seq<u8>,
    reference: Seq<char>,
    field: Seq<char>,
    new_value: Seq<char>,
    add_missing: bool,
    numbers: Map<Seq<char>, String>,
    blocks: Seq<(usize, usize)>,
    n: nat,
)
    requires
        n <= blocks.len(),
        property_edits(
            bytes,
            reference,
            field,
            new_value,
            add_missing,
            numbers,
            blocks,
            n,
        ) is Err,
    ensures
        property_edits(
            bytes,
            reference,
            field,
            new_value,
            add_missing,
            numbers,
            blocks,
            blocks.len(),
        ) == property_edits(
            bytes,
            reference,
            field,
            new_value,
            add_missing,
            numbers,
            blocks,
            n,
        ),
    decreases blocks.len() - n,
{
    if n < blocks.len() {
        lemma_edits_reason_stays(
            bytes,
            reference,
            field,
            new_value,
            add_missing,
            numbers,
            blocks,
            n + 1,
        );
    }
}

/// One change in a block.
enum Change {
    Update { edit: TextEdit },
    Add { edit: TextEdit },
    Refuse { reason: String },
}

spec fn change_view(change: Change) -> BlockChange {
    match change {
        Change::Update { edit } => BlockChange::Update { edit: edit@ },
        Change::Add { edit } => BlockChange::Add { edit: edit@ },
        Change::Refuse { reason } => BlockChange::Refuse { reason: reason@ },
    }
}

/// Writes how the property of a name begins.
pub fn write_property_start(field: &str) -> (res: String)
    ensures
        res@ == property_start(field@),
        res@.len() > 0,
{
    proof {
        reveal_strlit("(property \"");
    }
    concat3("(property \"", escape_property_text(field).as_str(), "\" \"")
}

fn change_block(
    content: &str,
    search: &str,
    reference: &str,
    field: &str,
    new_value: &str,
    add_missing: bool,
    numbers: &TextMap<String>,
    start: usize,
    end: usize,
) -> (res: Change)
    requires
        search@ == property_start(field@),
        search@.len() > 0,
        start <= end <= encode_utf8(content@).len(),
        is_char_boundary(encode_utf8(content@), start as int),
    ensures
        change_view(res) == block_change(
            encode_utf8(content@),
            reference@,
            field@,
            new_value@,
            add_missing,
            numbers@,
            (start, end),
        ),
{
    match find_text(content, search, start, end) {
        Some(at) => {
            let value_start: usize = at + search.as_bytes().len();
            match closing_quote(content, value_start) {
                Some(close) => Change::Update {
                    edit: TextEdit {
                        start: value_start,
                        end: close,
                        text: escape_property_text(new_value),
                    },
                },
                None => Change::Refuse {
                    reason: concat5("'", field, "' property on '", reference, "' is malformed"),
                },
            }
        },
        None => {
            if add_missing {
                match property_insert_edit(
                    content,
                    reference,
                    start,
                    end,
                    field,
                    new_value,
                    numbers,
                ) {
                    Ok(edit) => Change::Add { edit },
                    Err(reason) => Change::Refuse { reason },
                }
            } else {
                Change::Refuse {
                    reason: concat5(
                        "'",
                        reference,
                        "' is missing the shared '",
                        field,
                        "' property on one of its placed units",
                    ),
                }
            }
        },
    }
}

/// Sets one shared property of a component in every placed unit. `blocks` are
/// the ranges of the units in the text.
///
/// A built-in property must be there in every unit. A custom field may be
/// missing in some: with `add_missing` those are filled in by the same command.
pub fn set_property_value(
    content: &str,
    blocks: &Vec<(usize, usize)>,
    reference: &str,
    field: &str,
    new_value: &str,
    add_missing: bool,
    numbers: &TextMap<String>,
) -> (res: Result<PropertyEdits, String>)
    requires
        ranges_fit(encode_utf8(content@), blocks@),
    ensures
        blocks@.len() == 0 ==> (res matches Err(message) && message@ == "symbol '"@ + reference@
            + "' not found in this schematic"@),
        blocks@.len() > 0 ==> match property_edits(
            encode_utf8(content@),
            reference@,
            field@,
            new_value@,
            add_missing,
            numbers@,
            blocks@,
            blocks@.len(),
        ) {
            Ok(done) => res matches Ok(edits) && edit_views(edits.edits@) == done.0
                && edits.counts.updated == done.1 && edits.counts.added == done.2,
            Err(reason) => res matches Err(message) && message@ == reason,
        },
{
    if blocks.len() == 0 {
        return Err(concat3("symbol '", reference, "' not found in this schematic"));
    }
    let search = write_property_start(field);
    let ghost bytes = encode_utf8(content@);
    let mut edits: Vec<TextEdit> = Vec::new();
    let mut updated: usize = 0;
    let mut added: usize = 0;
    let mut i: usize = 0;
    assert(edit_views(edits@) =~= Seq::empty());
    while i < blocks.len()
        invariant
            i <= blocks@.len(),
            blocks@.len() > 0,
            bytes == encode_utf8(content@),
            ranges_fit(bytes, blocks@),
            search@ == property_start(field@),
            search@.len() > 0,
            updated + added == i,
            property_edits(
                bytes,
                reference@,
                field@,
                new_value@,
                add_missing,
                numbers@,
                blocks@,
                i as nat,
            ) == Ok::<_, Seq<char>>((edit_views(edits@), updated as nat, added as nat)),
        decreases blocks@.len() - i,
    {
        let (start, end) = blocks[i];
        let ghost before = edit_views(edits@);
        assert(blocks@[i as int] == (start, end));
        match change_block(
            content,
            search.as_str(),
            reference,
            field,
            new_value,
            add_missing,
            numbers,
            start,
            end,
        ) {
            Change::Update { edit } => {
                let ghost view = edit@;
                edits.push(edit);
                assert(edit_views(edits@) =~= before.push(view));
                updated += 1;
            },
            Change::Add { edit } => {
                let ghost view = edit@;
                edits.push(edit);
                assert(edit_views(edits@) =~= before.push(view));
                added += 1;
            },
            Change::Refuse { reason } => {
                proof {
                    lemma_edits_reason_stays(
                        bytes,
                        reference@,
                        field@,
                        new_value@,
                        add_missing,
                        numbers@,
                        blocks@,
                        (i + 1) as nat,
                    );
                }
                return Err(reason);
            },
        }
        i += 1;
    }
    Ok(PropertyEdits { edits, counts: PropertyWriteCounts { updated, added } })
}

/// The places of a text in a range, from `from` on, that do not overlap.
pub open spec fn all_in(hay: Seq<u8>, needle: Seq<u8>, from: int, to: int) -> Seq<int>
    decreases to - from,
{
    if needle.len() == 0 || from > to {
        Seq::empty()
    } else {
        match first_in(hay, needle, from, to) {
            None => Seq::empty(),
            Some(at) => if at < from || at + needle.len() > to {
                Seq::empty()
            } else {
                seq![at] + all_in(hay, needle, at + needle.len(), to)
            },
        }
    }
}

/// The edits that replace each of these places.
pub open spec fn replacements(at: Seq<int>, length: int, text: Seq<char>) -> Seq<EditView> {
    Seq::new(at.len(), |i: int| EditView { start: at[i], end: at[i] + length, text })
}

/// The entry of an instance path that names a reference.
pub open spec fn reference_entry(reference: Seq<char>) -> Seq<char> {
    "(reference \""@ + reference + "\")"@
}

/// The edits that rename the entries of the first `n` blocks.
pub open spec fn renames(
    bytes: Seq<u8>,
    old_entry: Seq<u8>,
    new_entry: Seq<char>,
    blocks: Seq<(usize, usize)>,
    n: nat,
) -> Seq<EditView>
    decreases n,
{
    if n == 0 {
        Seq::empty()
    } else {
        renames(bytes, old_entry, new_entry, blocks, (n - 1) as nat) + replacements(
            all_in(bytes, old_entry, blocks[n - 1].0 as int, blocks[n - 1].1 as int),
            old_entry.len() as int,
            new_entry,
        )
    }
}

fn rename_block(
    content: &str,
    search: &str,
    replacement: &str,
    start: usize,
    end: usize,
    edits: &mut Vec<TextEdit>,
)
    requires
        start <= end <= encode_utf8(content@).len(),
        search@.len() > 0,
    ensures
        edit_views(final(edits)@) == edit_views(old(edits)@) + replacements(
            all_in(encode_utf8(content@), encode_utf8(search@), start as int, end as int),
            encode_utf8(search@).len() as int,
            replacement@,
        ),
{
    let ghost bytes = encode_utf8(content@);
    let ghost needle = encode_utf8(search@);
    let ghost base = edit_views(edits@);
    let ghost all = all_in(bytes, needle, start as int, end as int);
    let length: usize = search.as_bytes().len();
    let mut from: usize = start;
    let ghost mut found: Seq<int> = Seq::empty();
    proof {
        lemma_encode_nonempty(search@);
        assert(found + all =~= all);
        assert(base + replacements(found, length as int, replacement@) =~= base);
    }
    loop
        invariant
            start <= from <= end <= bytes.len(),
            bytes == encode_utf8(content@),
            needle == encode_utf8(search@),
            needle.len() > 0,
            length == needle.len(),
            search@.len() > 0,
            all == found + all_in(bytes, needle, from as int, end as int),
            edit_views(edits@) == base + replacements(found, length as int, replacement@),
        ensures
            all == found,
            edit_views(edits@) == base + replacements(found, length as int, replacement@),
        decreases end - from,
    {
        match find_text(content, search, from, end) {
            None => {
                assert(found + Seq::<int>::empty() =~= found);
                break ;
            },
            Some(at) => {
                let ghost before = edit_views(edits@);
                let edit = TextEdit { start: at, end: at + length, text: owned(replacement) };
                let ghost view = edit@;
                edits.push(edit);
                proof {
                    assert(edit_views(edits@) =~= before.push(view));
                    let rest = all_in(bytes, needle, at + length, end as int);
                    assert(found + (seq![at as int] + rest) =~= found.push(at as int) + rest);
                    let now = found.push(at as int);
                    assert(replacements(now, length as int, replacement@) =~= replacements(
                        found,
                        length as int,
                        replacement@,
                    ).push(view));
                    assert(base + replacements(now, length as int, replacement@) =~= before.push(
                        view,
                    ));
                    found = now;
                }
                from = at + length;
            },
        }
    }
}

/// The edits that rename a component in the instance paths of its units.
/// `blocks` are the ranges of the units under their new reference.
///
/// Each placed unit has its own instance paths, so a rename has to reach all of
/// them, or the units disagree about their own reference.
pub fn rewrite_instance_references(
    content: &str,
    blocks: &Vec<(usize, usize)>,
    old_ref: &str,
    new_ref: &str,
) -> (res: Result<Vec<TextEdit>, String>)
    requires
        ranges_fit(encode_utf8(content@), blocks@),
    ensures
        ({
            let edits = renames(
                encode_utf8(content@),
                encode_utf8(reference_entry(old_ref@)),
                reference_entry(new_ref@),
                blocks@,
                blocks@.len(),
            );
            if blocks@.len() == 0 {
                res matches Err(message) && message@ == "symbol '"@ + old_ref@
                    + "' not found after the rename"@
            } else if edits.len() == 0 {
                res matches Err(message) && message@ == "'"@ + new_ref@ + "' has no (reference \""@
                    + old_ref@
                    + "\") in its instances path — the property was renamed but the netlist still reads the old designator"@
            } else {
                res matches Ok(list) && edit_views(list@) == edits
            }
        }),
{
    if blocks.len() == 0 {
        return Err(concat3("symbol '", old_ref, "' not found after the rename"));
    }
    let search = concat3("(reference \"", old_ref, "\")");
    let replacement = concat3("(reference \"", new_ref, "\")");
    proof {
        reveal_strlit("(reference \"");
    }
    let ghost bytes = encode_utf8(content@);
    let mut edits: Vec<TextEdit> = Vec::new();
    let mut i: usize = 0;
    assert(edit_views(edits@) =~= Seq::empty());
    while i < blocks.len()
        invariant
            i <= blocks@.len(),
            bytes == encode_utf8(content@),
            ranges_fit(bytes, blocks@),
            search@ == reference_entry(old_ref@),
            search@.len() > 0,
            replacement@ == reference_entry(new_ref@),
            edit_views(edits@) == renames(
                bytes,
                encode_utf8(reference_entry(old_ref@)),
                reference_entry(new_ref@),
                blocks@,
                i as nat,
            ),
        decreases blocks@.len() - i,
    {
        let (start, end) = blocks[i];
        assert(blocks@[i as int] == (start, end));
        rename_block(content, search.as_str(), replacement.as_str(), start, end, &mut edits);
        i += 1;
    }
    assert(edit_views(edits@).len() == edits@.len());
    if edits.len() == 0 {
        return Err(
            concat5(
                "'",
                new_ref,
                "' has no (reference \"",
                old_ref,
                "\") in its instances path — the property was renamed but the netlist still reads the old designator",
            ),
        );
    }
    Ok(edits)
}

/// Setting a property changes or adds exactly one copy in each block.
pub proof fn law_one_edit_per_block(
    bytes: Seq<u8>,
    reference: Seq<char>,
    field: Seq<char>,
    new_value: Seq<char>,
    add_missing: bool,
    numbers: Map<Seq<char>, String>,
    blocks: Seq<(usize, usize)>,
    n: nat,
)
    ensures
        property_edits(
            bytes,
            reference,
            field,
            new_value,
            add_missing,
            numbers,
            blocks,
            n,
        ) matches Ok(done) ==> done.0.len() == n && done.1 + done.2 == n,
    decreases n,
{
    if n > 0 {
        law_one_edit_per_block(
            bytes,
            reference,
            field,
            new_value,
            add_missing,
            numbers,
            blocks,
            (n - 1) as nat,
        );
    }
}

} // verus!
