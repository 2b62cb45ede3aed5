//! Moving and hiding the text of a field on placed symbols.
//!
//! A field's place is absolute, so a component of several units has one place
//! per unit. An edit is confined to what follows the value of the field's own
//! property: the value is arbitrary text and may look like a placement.

use crate::decimal::{number_text, write_number_u64};
use crate::property_edit::{
    find_text, lemma_at_bytes, property_start, ranges_fit, write_property_start,
};
use crate::property_laws::lemma_text_avoids;
use crate::property_text::{
    closing_quote, edit_views, lemma_encode_concat, quote_end, with_edit, EditView, TextEdit,
};
use crate::scan::{
    blanks_end, find_blanks_end, find_byte, find_last_byte, first_byte, first_in, last_byte,
    lemma_after_ascii, lemma_ascii_is_boundary, lemma_first_in_found, lemma_first_in_is,
    matches_at, parse_u32, part, slice, split_words, trim_spaces, trimmed_spaces, u32_value, words,
};
use crate::text::{concat3, concat5, owned, texts};
use crate::text_map::TextMap;
use vstd::prelude::*;
use vstd::string::*;
use vstd::utf8::*;

verus! {

/// Why a placement was refused, and how far the refusal reaches.
#[derive(PartialEq, Eq, Debug)]
pub enum PlacementRefusal {
    /// The property or its placement is malformed. Nothing may be committed.
    MalformedFile(String),
    /// The symbol, the field or the unit was not found. Only this field is
    /// refused.
    TargetMissing(String),
}

impl PlacementRefusal {
    /// The reason of the refusal.
    pub open spec fn why(self) -> Seq<char> {
        match self {
            PlacementRefusal::MalformedFile(reason) => reason@,
            PlacementRefusal::TargetMissing(reason) => reason@,
        }
    }

    /// The reason of the refusal.
    pub fn reason(&self) -> (res: &str)
        ensures
            res@ == self.why(),
    {
        match self {
            PlacementRefusal::MalformedFile(reason) => reason.as_str(),
            PlacementRefusal::TargetMissing(reason) => reason.as_str(),
        }
    }
}

/// Where a field's text is to stand, with the numbers as they are written. What
/// is absent stays as it is.
#[derive(PartialEq, Eq, Debug)]
pub struct PlacementText {
    pub x: Option<String>,
    pub y: Option<String>,
    pub rotation: Option<String>,
    pub hide: Option<bool>,
}

/// The unit that a block places; the first where it does not say.
pub open spec fn block_unit(bytes: Seq<u8>, start: int, end: int) -> u32 {
    match first_in(bytes, encode_utf8("(unit "@), start, end) {
        None => 1,
        Some(at) => match first_byte(bytes, 41, at + 6, end) {
            None => 1,
            Some(close) => match u32_value(trimmed_spaces(part(bytes, at + 6, close))) {
                Some(unit) => unit,
                None => 1,
            },
        },
    }
}

/// A refusal: whether the file is malformed, and the reason.
pub struct RefusalView {
    pub malformed: bool,
    pub reason: Seq<char>,
}

/// The content of a refusal.
pub open spec fn refusal_view(refusal: PlacementRefusal) -> RefusalView {
    RefusalView { malformed: refusal is MalformedFile, reason: refusal.why() }
}

/// A refusal because the file is malformed.
pub open spec fn malformed(reason: Seq<char>) -> RefusalView {
    RefusalView { malformed: true, reason }
}

/// The property as a whole is malformed.
pub open spec fn property_malformed(field: Seq<char>, reference: Seq<char>) -> RefusalView {
    malformed("'"@ + field + "' property on '"@ + reference + "' is malformed"@)
}

/// What a message about a placement begins with.
pub open spec fn placement_name(field: Seq<char>, reference: Seq<char>) -> Seq<char> {
    "'"@ + field + "' placement on '"@ + reference
}

/// One number of a placement, as it is written.
pub open spec fn coordinate(
    field: Seq<char>,
    reference: Seq<char>,
    raw: Seq<char>,
    index: int,
    axis: Seq<char>,
    numbers: Map<Seq<char>, String>,
) -> Result<Seq<char>, RefusalView> {
    let tokens = words(raw);
    let name = placement_name(field, reference);
    if index >= tokens.len() {
        Err(malformed(name + "' has no "@ + axis + " in `(at "@ + raw + ")`"@))
    } else if !numbers.contains_key(tokens[index]) {
        Err(
            malformed(
                name + "' has a non-numeric "@ + axis + " '"@ + tokens[index] + "' in `(at "@ + raw
                    + ")`"@,
            ),
        )
    } else {
        Ok(numbers[tokens[index]]@)
    }
}

/// The three numbers of a placement, as they are written.
pub open spec fn current_place(
    field: Seq<char>,
    reference: Seq<char>,
    raw: Seq<char>,
    numbers: Map<Seq<char>, String>,
) -> Result<(Seq<char>, Seq<char>, Seq<char>), RefusalView> {
    let x = coordinate(field, reference, raw, 0, "x"@, numbers);
    let y = coordinate(field, reference, raw, 1, "y"@, numbers);
    let rotation = coordinate(field, reference, raw, 2, "rotation"@, numbers);
    let count = words(raw).len();
    if x is Err {
        Err(x->Err_0)
    } else if y is Err {
        Err(y->Err_0)
    } else if count == 2 {
        Ok((x->Ok_0, y->Ok_0, "0"@))
    } else if count != 3 {
        Err(
            malformed(
                placement_name(field, reference) + "' has "@ + number_text(count)
                    + " values in `(at "@ + raw
                    + ")`; expected x, y and an optional rotation"@,
            ),
        )
    } else if rotation is Err {
        Err(rotation->Err_0)
    } else {
        Ok((x->Ok_0, y->Ok_0, rotation->Ok_0))
    }
}

/// The text, or another where there is none.
pub open spec fn or_else(value: Option<String>, other: Seq<char>) -> Seq<char> {
    match value {
        Some(text) => text@,
        None => other,
    }
}

/// The edit that moves a field, where it is to be moved.
pub open spec fn move_edit(
    at: int,
    at_end: int,
    current: (Seq<char>, Seq<char>, Seq<char>),
    placement: PlacementText,
) -> Seq<EditView> {
    if placement.x is Some || placement.y is Some || placement.rotation is Some {
        seq![
            EditView {
                start: at,
                end: at_end,
                text: "(at "@ + or_else(placement.x, current.0) + " "@ + or_else(
                    placement.y,
                    current.1,
                ) + " "@ + or_else(placement.rotation, current.2) + ")"@,
            },
        ]
    } else {
        Seq::empty()
    }
}

/// Where the spaces and tabs before a position begin.
pub open spec fn blanks_before(bytes: Seq<u8>, at: int) -> int
    decreases at,
{
    if at > 0 && (bytes[at - 1] == 32 || bytes[at - 1] == 9) {
        blanks_before(bytes, at - 1)
    } else {
        at
    }
}

/// Where removing a flag begins: with its line, where it has one to itself, and
/// otherwise with the flag.
pub open spec fn flag_start(bytes: Seq<u8>, flag: int) -> int {
    let from = blanks_before(bytes, flag);
    if from == 0 || bytes[from - 1] != 10 {
        flag
    } else {
        from - 1
    }
}

/// The spaces and tabs that the line of a position begins with.
pub open spec fn line_indent(bytes: Seq<u8>, at: int) -> Seq<char> {
    let from = match last_byte(bytes, 10, 0, at) {
        None => 0,
        Some(line) => line + 1,
    };
    part(bytes, from, blanks_end(bytes, from, at))
}

/// The byte is a space, a tab or the end of a line.
pub open spec fn is_gap(byte: u8) -> bool {
    byte == 32 || byte == 9 || byte == 10 || byte == 13
}

/// Where the gap from a position on ends, at `to` at the latest.
pub open spec fn gap_end(bytes: Seq<u8>, from: int, to: int) -> int
    decreases to - from,
{
    if from < to && is_gap(bytes[from]) {
        gap_end(bytes, from + 1, to)
    } else {
        from
    }
}

/// The word of a flag, which ends by `to`, is `yes`, bare or in quotation marks.
pub open spec fn says_yes(bytes: Seq<u8>, flag: int, to: int) -> bool {
    let word = gap_end(bytes, flag + 6, to);
    ||| {
        &&& word + 4 <= to
        &&& matches_at(bytes, encode_utf8("yes"@), word)
        &&& (is_gap(bytes[word + 3]) || bytes[word + 3] == 40 || bytes[word + 3] == 41)
    }
    ||| word + 6 <= to && matches_at(bytes, encode_utf8("\"yes\""@), word)
}

/// The edit that makes one flag say what is wanted: a flag that says otherwise
/// than to hide gives way to one that hides, and a field that is to be shown
/// loses its flags.
pub open spec fn flag_edit(bytes: Seq<u8>, flag: int, close: int, hide: bool) -> Seq<EditView> {
    if !hide {
        seq![EditView { start: flag_start(bytes, flag), end: close + 1, text: Seq::empty() }]
    } else if says_yes(bytes, flag, close + 1) {
        Seq::empty()
    } else {
        seq![EditView { start: flag, end: close + 1, text: "(hide yes)"@ }]
    }
}

/// Where the next flag is looked for: behind the bracket of one that changes,
/// and in what follows the tag of one that stays.
pub open spec fn behind_flag(bytes: Seq<u8>, flag: int, close: int, hide: bool) -> int {
    if hide && says_yes(bytes, flag, close + 1) {
        flag + 6
    } else {
        close + 1
    }
}

/// The edits that make every flag from a position on say what is wanted.
pub open spec fn flag_edits(
    bytes: Seq<u8>,
    field: Seq<char>,
    reference: Seq<char>,
    from: int,
    prop_end: int,
    hide: bool,
) -> Result<Seq<EditView>, RefusalView>
    decreases prop_end - from,
{
    if from > prop_end {
        Ok(Seq::empty())
    } else {
        match first_in(bytes, encode_utf8("(hide "@), from, prop_end) {
            None => Ok(Seq::empty()),
            Some(flag) => match first_byte(bytes, 41, flag, prop_end) {
                None => Err(
                    malformed("'"@ + field + "' hide flag on '"@ + reference + "' is malformed"@),
                ),
                Some(close) => if flag < from || close < flag || close >= prop_end {
                    Ok(Seq::empty())
                } else {
                    match flag_edits(
                        bytes,
                        field,
                        reference,
                        behind_flag(bytes, flag, close, hide),
                        prop_end,
                        hide,
                    ) {
                        Err(refusal) => Err(refusal),
                        Ok(rest) => Ok(flag_edit(bytes, flag, close, hide) + rest),
                    }
                },
            },
        }
    }
}

/// The edits that hide or show a field, where that changes: a field without a
/// flag gets one to be hidden, and otherwise every flag is made to say so.
pub open spec fn hide_edit(
    bytes: Seq<u8>,
    field: Seq<char>,
    reference: Seq<char>,
    body: int,
    prop_end: int,
    at: int,
    at_end: int,
    hide: Option<bool>,
) -> Result<Seq<EditView>, RefusalView> {
    match hide {
        None => Ok(Seq::empty()),
        Some(wanted) => if wanted && first_in(
            bytes,
            encode_utf8("(hide "@),
            body,
            prop_end,
        ) is None {
            Ok(
                seq![
                    EditView {
                        start: at_end,
                        end: at_end,
                        text: "\n"@ + line_indent(bytes, at) + "(hide yes)"@,
                    },
                ],
            )
        } else {
            flag_edits(bytes, field, reference, body, prop_end, wanted)
        },
    }
}

/// What a placement does in one block.
pub enum BlockPlacement {
    Skip,
    Edit { edits: Seq<EditView> },
    Refuse { refusal: RefusalView },
}

/// What a placement does in one block. `prop_end` is where the property of the
/// field ends, where that is known.
pub open spec fn place_in_block(
    bytes: Seq<u8>,
    reference: Seq<char>,
    field: Seq<char>,
    placement: PlacementText,
    only_unit: Option<u32>,
    numbers: Map<Seq<char>, String>,
    block: (usize, usize),
    prop_end: Option<usize>,
) -> BlockPlacement {
    let (start, end) = (block.0 as int, block.1 as int);
    let search = encode_utf8(property_start(field));
    if only_unit is Some && block_unit(bytes, start, end) != only_unit->0 {
        BlockPlacement::Skip
    } else {
        match first_in(bytes, search, start, end) {
            None => BlockPlacement::Refuse {
                refusal: RefusalView {
                    malformed: false,
                    reason: "'"@ + reference + "' has no '"@ + field
                        + "' property on one of its placed units"@,
                },
            },
            Some(found) => {
                let quote = quote_end(bytes, found + search.len(), false);
                if prop_end is None || quote is None || prop_end->0 > bytes.len() || quote->0 + 1
                    > prop_end->0 {
                    BlockPlacement::Refuse { refusal: property_malformed(field, reference) }
                } else {
                    place_in_property(
                        bytes,
                        reference,
                        field,
                        placement,
                        numbers,
                        quote->0 + 1,
                        prop_end->0 as int,
                    )
                }
            },
        }
    }
}

/// What a placement does to a property, by what follows its value.
pub open spec fn place_in_property(
    bytes: Seq<u8>,
    reference: Seq<char>,
    field: Seq<char>,
    placement: PlacementText,
    numbers: Map<Seq<char>, String>,
    body: int,
    prop_end: int,
) -> BlockPlacement {
    match first_in(bytes, encode_utf8("(at "@), body, prop_end) {
        None => BlockPlacement::Refuse {
            refusal: malformed(
                "'"@ + field + "' property on '"@ + reference + "' carries no (at …)"@,
            ),
        },
        Some(at) => match first_byte(bytes, 41, at, prop_end) {
            None => BlockPlacement::Refuse { refusal: property_malformed(field, reference) },
            Some(close) => {
                let raw = part(bytes, at + 4, close);
                let current = current_place(field, reference, raw, numbers);
                let hidden = hide_edit(
                    bytes,
                    field,
                    reference,
                    body,
                    prop_end,
                    at,
                    close + 1,
                    placement.hide,
                );
                if current is Err {
                    BlockPlacement::Refuse { refusal: current->Err_0 }
                } else if hidden is Err {
                    BlockPlacement::Refuse { refusal: hidden->Err_0 }
                } else {
                    BlockPlacement::Edit {
                        edits: move_edit(at, close + 1, current->Ok_0, placement)
                            + hidden->Ok_0,
                    }
                }
            },
        },
    }
}

/// The edits of the first `n` blocks and the number of blocks that they touch,
/// or the first refusal.
pub open spec fn placement_edits(
    bytes: Seq<u8>,
    reference: Seq<char>,
    field: Seq<char>,
    placement: PlacementText,
    only_unit: Option<u32>,
    numbers: Map<Seq<char>, String>,
    blocks: Seq<(usize, usize)>,
    ends: Seq<Option<usize>>,
    n: nat,
) -> Result<(Seq<EditView>, nat), RefusalView>
    decreases n,
{
    if n == 0 {
        Ok((Seq::empty(), 0))
    } else {
        match placement_edits(
            bytes,
            reference,
            field,
            placement,
            only_unit,
            numbers,
            blocks,
            ends,
            (n - 1) as nat,
        ) {
            Err(refusal) => Err(refusal),
            Ok(done) => match place_in_block(
                bytes,
                reference,
                field,
                placement,
                only_unit,
                numbers,
                blocks[n - 1],
                ends[n - 1],
            ) {
                BlockPlacement::Skip => Ok(done),
                BlockPlacement::Edit { edits } => Ok((done.0 + edits, done.1 + 1)),
                BlockPlacement::Refuse { refusal } => Err(refusal),
            },
        }
    }
}

/// What is said where no unit was touched.
pub open spec fn no_unit(reference: Seq<char>, only_unit: Option<u32>) -> Seq<char> {
    "'"@ + reference + "' has no placed unit "@ + (match only_unit {
        Some(unit) => number_text(unit as nat),
        None => Seq::empty(),
    })
}

proof fn lemma_refusal_stays(
    bytes: Seq<u8>,
    reference: Seq<char>,
    field: Seq<char>,
    placement: PlacementText,
    only_unit: Option<u32>,
    numbers: Map<Seq<char>, String>,
    blocks: Seq<(usize, usize)>,
    ends: Seq<Option<usize>>,
    n: nat,
)
    requires
        n <= blocks.len(),
        placement_edits(
            bytes,
            reference,
            field,
            placement,
            only_unit,
            numbers,
            blocks,
            ends,
            n,
        ) is Err,
    ensures
        placement_edits(
            bytes,
            reference,
            field,
            placement,
            only_unit,
            numbers,
            blocks,
            ends,
            blocks.len(),
        ) == placement_edits(
            bytes,
            reference,
            field,
            placement,
            only_unit,
            numbers,
            blocks,
            ends,
            n,
        ),
    decreases blocks.len() - n,
{
    if n < blocks.len() {
        lemma_refusal_stays(
            bytes,
            reference,
            field,
            placement,
            only_unit,
            numbers,
            blocks,
            ends,
            n + 1,
        );
    }
}

proof fn lemma_unit_bytes()
    ensures
        encode_utf8("(unit "@).len() == 6,
        encode_utf8("(unit "@)[5] == 32,
{
    reveal_strlit("(unit ");
    is_ascii_chars_encode_utf8("(unit "@);
}

fn read_unit(content: &str, start: usize, end: usize) -> (res: u32)
    requires
        start <= end <= encode_utf8(content@).len(),
    ensures
        res == block_unit(encode_utf8(content@), start as int, end as int),
{
    let ghost bytes = encode_utf8(content@);
    proof {
        lemma_unit_bytes();
        reveal_strlit("(unit ");
        encode_utf8_valid_utf8(content@);
    }
    let at = match find_text(content, "(unit ", start, end) {
        Some(at) => at,
        None => {
            return 1;
        },
    };
    let close = match find_byte(content.as_bytes(), 41, at + 6, end) {
        Some(close) => close,
        None => {
            return 1;
        },
    };
    proof {
        let found = bytes.subrange(at as int, at + 6);
        assert(found[5] == bytes[at + 5]);
        lemma_after_ascii(bytes, at + 5);
        lemma_ascii_is_boundary(bytes, close as int);
    }
    let text = trim_spaces(slice(content, at + 6, close));
    match parse_u32(text.as_str()) {
        Some(unit) => unit,
        None => 1,
    }
}

fn malformed_property(field: &str, reference: &str) -> (res: PlacementRefusal)
    ensures
        refusal_view(res) == property_malformed(field@, reference@),
{
    PlacementRefusal::MalformedFile(
        concat5("'", field, "' property on '", reference, "' is malformed"),
    )
}

fn read_coordinate(
    field: &str,
    reference: &str,
    raw: &str,
    tokens: &Vec<String>,
    index: usize,
    axis: &str,
    numbers: &TextMap<String>,
) -> (res: Result<String, PlacementRefusal>)
    requires
        texts(tokens@) == words(raw@),
    ensures
        match coordinate(field@, reference@, raw@, index as int, axis@, numbers@) {
            Ok(text) => res matches Ok(value) && value@ == text,
            Err(refusal) => res matches Err(error) && refusal_view(error) == refusal,
        },
{
    assert(words(raw@).len() == tokens@.len());
    if index >= tokens.len() {
        let mut reason = concat5("'", field, "' placement on '", reference, "' has no ");
        reason.append(axis);
        reason.append(" in `(at ");
        reason.append(raw);
        reason.append(")`");
        return Err(PlacementRefusal::MalformedFile(reason));
    }
    assert(words(raw@)[index as int] == tokens@[index as int]@);
    match numbers.get(tokens[index].as_str()) {
        Some(text) => Ok(text.clone()),
        None => {
            let mut reason = concat5(
                "'",
                field,
                "' placement on '",
                reference,
                "' has a non-numeric ",
            );
            reason.append(axis);
            reason.append(" '");
            reason.append(tokens[index].as_str());
            reason.append("' in `(at ");
            reason.append(raw);
            reason.append(")`");
            Err(PlacementRefusal::MalformedFile(reason))
        },
    }
}

/// The numbers of a placement, as they are written.
struct Place {
    x: String,
    y: String,
    rotation: String,
}

fn read_place(
    field: &str,
    reference: &str,
    raw: &str,
    numbers: &TextMap<String>,
) -> (res: Result<Place, PlacementRefusal>)
    ensures
        match current_place(field@, reference@, raw@, numbers@) {
            Ok(place) => res matches Ok(found) && place == (found.x@, found.y@, found.rotation@),
            Err(refusal) => res matches Err(error) && refusal_view(error) == refusal,
        },
{
    let tokens = split_words(raw);
    assert(words(raw@).len() == tokens@.len());
    let x = match read_coordinate(field, reference, raw, &tokens, 0, "x", numbers) {
        Ok(text) => text,
        Err(refusal) => {
            return Err(refusal);
        },
    };
    let y = match read_coordinate(field, reference, raw, &tokens, 1, "y", numbers) {
        Ok(text) => text,
        Err(refusal) => {
            return Err(refusal);
        },
    };
    if tokens.len() == 2 {
        return Ok(Place { x, y, rotation: owned("0") });
    }
    if tokens.len() != 3 {
        let mut reason = concat5("'", field, "' placement on '", reference, "' has ");
        reason.append(crate::decimal::write_number(tokens.len()).as_str());
        reason.append(" values in `(at ");
        reason.append(raw);
        reason.append(")`; expected x, y and an optional rotation");
        return Err(PlacementRefusal::MalformedFile(reason));
    }
    match read_coordinate(field, reference, raw, &tokens, 2, "rotation", numbers) {
        Ok(rotation) => Ok(Place { x, y, rotation }),
        Err(refusal) => Err(refusal),
    }
}

fn pick<'a>(value: &'a Option<String>, other: &'a str) -> (res: &'a str)
    ensures
        res@ == or_else(*value, other@),
{
    match value {
        Some(text) => text.as_str(),
        None => other,
    }
}

fn push_edit(edits: &mut Vec<TextEdit>, start: usize, end: usize, text: String)
    ensures
        edit_views(final(edits)@) == edit_views(old(edits)@).push(
            EditView { start: start as int, end: end as int, text: text@ },
        ),
{
    let ghost before = edits@;
    let edit = TextEdit { start, end, text };
    let ghost view = edit@;
    edits.push(edit);
    assert(edit_views(edits@) =~= edit_views(before).push(view));
}

fn push_move(
    edits: &mut Vec<TextEdit>,
    at: usize,
    at_end: usize,
    place: &Place,
    placement: &PlacementText,
)
    ensures
        edit_views(final(edits)@) == edit_views(old(edits)@) + move_edit(
            at as int,
            at_end as int,
            (place.x@, place.y@, place.rotation@),
            *placement,
        ),
{
    let ghost before = edit_views(edits@);
    if placement.x.is_some() || placement.y.is_some() || placement.rotation.is_some() {
        let mut text = concat5(
            "(at ",
            pick(&placement.x, place.x.as_str()),
            " ",
            pick(&placement.y, place.y.as_str()),
            " ",
        );
        text.append(pick(&placement.rotation, place.rotation.as_str()));
        text.append(")");
        push_edit(edits, at, at_end, text);
    }
    assert(edit_views(edits@) =~= before + move_edit(
        at as int,
        at_end as int,
        (place.x@, place.y@, place.rotation@),
        *placement,
    ));
}

fn find_flag_start(bytes: &[u8], flag: usize) -> (res: usize)
    requires
        flag <= bytes@.len(),
    ensures
        res == flag_start(bytes@, flag as int),
        res <= flag,
{
    let mut from: usize = flag;
    while from > 0 && (bytes[from - 1] == 32 || bytes[from - 1] == 9)
        invariant
            from <= flag <= bytes@.len(),
            blanks_before(bytes@, flag as int) == blanks_before(bytes@, from as int),
        decreases from,
    {
        from -= 1;
    }
    if from == 0 || bytes[from - 1] != 10 {
        flag
    } else {
        from - 1
    }
}

fn read_line_indent(content: &str, at: usize) -> (res: String)
    requires
        at <= encode_utf8(content@).len(),
    ensures
        res@ == line_indent(encode_utf8(content@), at as int),
{
    let ghost bytes = encode_utf8(content@);
    proof {
        encode_utf8_valid_utf8(content@);
        is_char_boundary_start_end_of_seq(bytes);
    }
    let from: usize = match find_last_byte(content.as_bytes(), 10, 0, at) {
        None => 0,
        Some(line) => {
            proof {
                lemma_after_ascii(bytes, line as int);
            }
            line + 1
        },
    };
    let to = find_blanks_end(content.as_bytes(), from, at);
    proof {
        if from < to {
            assert(bytes[to - 1] == 32 || bytes[to - 1] == 9);
            lemma_after_ascii(bytes, to - 1);
        }
    }
    owned(slice(content, from, to))
}

fn text_stands_at(content: &str, needle: &str, at: usize) -> (res: bool)
    requires
        at <= encode_utf8(content@).len(),
    ensures
        res == matches_at(encode_utf8(content@), encode_utf8(needle@), at as int),
{
    let (hay, wanted) = (content.as_bytes(), needle.as_bytes());
    let ghost (x, y) = (encode_utf8(content@), encode_utf8(needle@));
    let count: usize = hay.len();
    if wanted.len() > count - at {
        return false;
    }
    let mut i: usize = 0;
    while i < wanted.len()
        invariant
            i <= wanted@.len(),
            x == hay@,
            y == wanted@,
            x == encode_utf8(content@),
            y == encode_utf8(needle@),
            count == hay@.len(),
            at + wanted@.len() <= count,
            forall|k: int| 0 <= k < i ==> x[at + k] == #[trigger] y[k],
        decreases wanted@.len() - i,
    {
        if hay[at + i] != wanted[i] {
            proof {
                if x.subrange(at as int, at + y.len()) == y {
                    assert(x.subrange(at as int, at + y.len())[i as int] == y[i as int]);
                }
            }
            return false;
        }
        i += 1;
    }
    assert(x.subrange(at as int, at + y.len()) =~= y);
    true
}

fn find_gap_end(bytes: &[u8], from: usize, to: usize) -> (res: usize)
    requires
        from <= to <= bytes@.len(),
    ensures
        res == gap_end(bytes@, from as int, to as int),
        from <= res <= to,
{
    let mut at: usize = from;
    while at < to && (bytes[at] == 32 || bytes[at] == 9 || bytes[at] == 10 || bytes[at] == 13)
        invariant
            from <= at <= to <= bytes@.len(),
            gap_end(bytes@, from as int, to as int) == gap_end(bytes@, at as int, to as int),
        decreases to - at,
    {
        at += 1;
    }
    at
}

fn flag_says_yes(content: &str, flag: usize, to: usize) -> (res: bool)
    requires
        flag + 6 <= to <= encode_utf8(content@).len(),
    ensures
        res == says_yes(encode_utf8(content@), flag as int, to as int),
{
    let bytes = content.as_bytes();
    let word: usize = find_gap_end(bytes, flag + 6, to);
    if to - word >= 4 && text_stands_at(content, "yes", word) {
        let next: u8 = bytes[word + 3];
        if next == 32 || next == 9 || next == 10 || next == 13 || next == 40 || next == 41 {
            return true;
        }
    }
    to - word >= 6 && text_stands_at(content, "\"yes\"", word)
}

fn push_flags(
    edits: &mut Vec<TextEdit>,
    content: &str,
    field: &str,
    reference: &str,
    body: usize,
    prop_end: usize,
    hide: bool,
) -> (res: Result<(), PlacementRefusal>)
    requires
        body <= prop_end <= encode_utf8(content@).len(),
    ensures
        match flag_edits(
            encode_utf8(content@),
            field@,
            reference@,
            body as int,
            prop_end as int,
            hide,
        ) {
            Ok(more) => res is Ok && edit_views(final(edits)@) == edit_views(old(edits)@) + more,
            Err(refusal) => res matches Err(error) && refusal_view(error) == refusal,
        },
{
    let ghost base = edit_views(edits@);
    let ghost bytes = encode_utf8(content@);
    let ghost whole = flag_edits(bytes, field@, reference@, body as int, prop_end as int, hide);
    let ghost mut done: Seq<EditView> = Seq::empty();
    let mut from: usize = body;
    proof {
        assert(base + done =~= base);
        if whole is Ok {
            assert(done + whole->Ok_0 =~= whole->Ok_0);
        }
    }
    loop
        invariant
            body <= from <= prop_end <= bytes.len(),
            bytes == encode_utf8(content@),
            whole == flag_edits(
                bytes,
                field@,
                reference@,
                body as int,
                prop_end as int,
                hide,
            ),
            base == edit_views(old(edits)@),
            edit_views(edits@) == base + done,
            ({
                let rest = flag_edits(
                    bytes,
                    field@,
                    reference@,
                    from as int,
                    prop_end as int,
                    hide,
                );
                match whole {
                    Ok(all) => rest is Ok && all == done + rest->Ok_0,
                    Err(refusal) => rest == Err::<Seq<EditView>, RefusalView>(refusal),
                }
            }),
        decreases prop_end - from,
    {
        proof {
            reveal_strlit("(hide ");
            is_ascii_chars_encode_utf8("(hide "@);
            assert(done + Seq::<EditView>::empty() =~= done);
        }
        let flag = match find_text(content, "(hide ", from, prop_end) {
            None => {
                return Ok(());
            },
            Some(flag) => flag,
        };
        let close = match find_byte(content.as_bytes(), 41, flag, prop_end) {
            None => {
                return Err(
                    PlacementRefusal::MalformedFile(
                        concat5("'", field, "' hide flag on '", reference, "' is malformed"),
                    ),
                );
            },
            Some(close) => close,
        };
        proof {
            lemma_tag_stands(bytes, flag as int, close as int);
        }
        let ghost own = flag_edit(bytes, flag as int, close as int, hide);
        let ghost rest = flag_edits(
            bytes,
            field@,
            reference@,
            behind_flag(bytes, flag as int, close as int, hide),
            prop_end as int,
            hide,
        );
        let mut next: usize = close + 1;
        if !hide {
            let start = find_flag_start(content.as_bytes(), flag);
            push_edit(edits, start, close + 1, String::new());
        } else if flag_says_yes(content, flag, close + 1) {
            next = flag + 6;
        } else {
            push_edit(edits, flag, close + 1, owned("(hide yes)"));
        }
        proof {
            assert(edit_views(edits@) =~= base + (done + own));
            if whole is Ok {
                assert(done + (own + rest->Ok_0) =~= (done + own) + rest->Ok_0);
            }
            done = done + own;
        }
        from = next;
    }
}

/// The closing bracket of a flag stands behind its tag.
pub proof fn lemma_tag_stands(bytes: Seq<u8>, flag: int, close: int)
    requires
        matches_at(bytes, encode_utf8("(hide "@), flag),
        flag <= close,
        bytes[close] == 41,
    ensures
        flag + 6 <= close,
{
    reveal_strlit("(hide ");
    is_ascii_chars_encode_utf8("(hide "@);
    let seen = bytes.subrange(flag, flag + 6);
    assert(seen == encode_utf8("(hide "@));
    if close < flag + 6 {
        assert(seen[close - flag] == 41);
    }
}

fn push_hide(
    edits: &mut Vec<TextEdit>,
    content: &str,
    field: &str,
    reference: &str,
    body: usize,
    prop_end: usize,
    at: usize,
    at_end: usize,
    hide: Option<bool>,
) -> (res: Result<(), PlacementRefusal>)
    requires
        body <= prop_end <= encode_utf8(content@).len(),
        at < encode_utf8(content@).len(),
    ensures
        match hide_edit(
            encode_utf8(content@),
            field@,
            reference@,
            body as int,
            prop_end as int,
            at as int,
            at_end as int,
            hide,
        ) {
            Ok(more) => res is Ok && edit_views(final(edits)@) == edit_views(old(edits)@) + more,
            Err(refusal) => res matches Err(error) && refusal_view(error) == refusal,
        },
{
    let ghost before = edit_views(edits@);
    proof {
        reveal_strlit("(hide ");
        assert(before + Seq::<EditView>::empty() =~= before);
    }
    let wanted = match hide {
        Some(wanted) => wanted,
        None => {
            return Ok(());
        },
    };
    if wanted && find_text(content, "(hide ", body, prop_end).is_none() {
        let indent = read_line_indent(content, at);
        let text = concat3("\n", indent.as_str(), "(hide yes)");
        push_edit(edits, at_end, at_end, text);
        assert(edit_views(edits@) =~= before + hide_edit(
            encode_utf8(content@),
            field@,
            reference@,
            body as int,
            prop_end as int,
            at as int,
            at_end as int,
            hide,
        )->Ok_0);
        return Ok(());
    }
    push_flags(edits, content, field, reference, body, prop_end, wanted)
}

/// The closing bracket of a placement stands behind its first four bytes.
proof fn lemma_close_behind(bytes: Seq<u8>, at: int, to: int)
    requires
        matches_at(bytes, encode_utf8("(at "@), at),
        at + 4 <= to <= bytes.len(),
    ensures
        first_byte(bytes, 41, at, to) == first_byte(bytes, 41, at + 4, to),
        bytes[at] == 40,
        bytes[at + 3] == 32,
{
    reveal_strlit("(at ");
    is_ascii_chars_encode_utf8("(at "@);
    let found = bytes.subrange(at, at + 4);
    assert(found[0] == bytes[at] && found[1] == bytes[at + 1] && found[2] == bytes[at + 2]
        && found[3] == bytes[at + 3]);
    reveal_with_fuel(first_byte, 5);
}

fn place_property(
    edits: &mut Vec<TextEdit>,
    content: &str,
    reference: &str,
    field: &str,
    placement: &PlacementText,
    numbers: &TextMap<String>,
    body: usize,
    prop_end: usize,
) -> (res: Result<(), PlacementRefusal>)
    requires
        body <= prop_end <= encode_utf8(content@).len(),
    ensures
        match place_in_property(
            encode_utf8(content@),
            reference@,
            field@,
            *placement,
            numbers@,
            body as int,
            prop_end as int,
        ) {
            BlockPlacement::Edit { edits: more } => res is Ok && edit_views(final(edits)@)
                == edit_views(old(edits)@) + more,
            BlockPlacement::Refuse { refusal } => res matches Err(error) && refusal_view(error)
                == refusal,
            BlockPlacement::Skip => false,
        },
{
    let ghost bytes = encode_utf8(content@);
    let ghost before = edit_views(edits@);
    proof {
        lemma_at_bytes();
        reveal_strlit("(at ");
        encode_utf8_valid_utf8(content@);
    }
    let at = match find_text(content, "(at ", body, prop_end) {
        Some(at) => at,
        None => {
            return Err(
                PlacementRefusal::MalformedFile(
                    concat5("'", field, "' property on '", reference, "' carries no (at …)"),
                ),
            );
        },
    };
    proof {
        lemma_close_behind(bytes, at as int, prop_end as int);
    }
    let close = match find_byte(content.as_bytes(), 41, at + 4, prop_end) {
        Some(close) => close,
        None => {
            return Err(malformed_property(field, reference));
        },
    };
    proof {
        lemma_after_ascii(bytes, at + 3);
        lemma_ascii_is_boundary(bytes, close as int);
    }
    let raw = slice(content, at + 4, close);
    let place = match read_place(field, reference, raw, numbers) {
        Ok(place) => place,
        Err(refusal) => {
            return Err(refusal);
        },
    };
    push_move(edits, at, close + 1, &place, placement);
    let ghost middle = edit_views(edits@);
    match push_hide(
        edits,
        content,
        field,
        reference,
        body,
        prop_end,
        at,
        close + 1,
        placement.hide,
    ) {
        Ok(_) => {
            proof {
                let moved = move_edit(
                    at as int,
                    close + 1,
                    (place.x@, place.y@, place.rotation@),
                    *placement,
                );
                let hidden = hide_edit(
                    bytes,
                    field@,
                    reference@,
                    body as int,
                    prop_end as int,
                    at as int,
                    close + 1,
                    placement.hide,
                )->Ok_0;
                assert(before + moved + hidden =~= before + (moved + hidden));
            }
            Ok(())
        },
        Err(refusal) => Err(refusal),
    }
}

/// What was done about one block.
enum Step {
    Skipped,
    Edited,
    Refused { refusal: PlacementRefusal },
}

fn place_block(
    edits: &mut Vec<TextEdit>,
    content: &str,
    search: &str,
    reference: &str,
    field: &str,
    placement: &PlacementText,
    only_unit: Option<u32>,
    numbers: &TextMap<String>,
    start: usize,
    end: usize,
    prop_end: Option<usize>,
) -> (res: Step)
    requires
        start <= end <= encode_utf8(content@).len(),
        search@ == property_start(field@),
        search@.len() > 0,
    ensures
        match place_in_block(
            encode_utf8(content@),
            reference@,
            field@,
            *placement,
            only_unit,
            numbers@,
            (start, end),
            prop_end,
        ) {
            BlockPlacement::Skip => res is Skipped && edit_views(final(edits)@) == edit_views(
                old(edits)@,
            ),
            BlockPlacement::Edit { edits: more } => res is Edited && edit_views(final(edits)@)
                == edit_views(old(edits)@) + more,
            BlockPlacement::Refuse { refusal } => res matches Step::Refused { refusal: error }
                && refusal_view(error) == refusal,
        },
{
    if let Some(wanted) = only_unit {
        if read_unit(content, start, end) != wanted {
            return Step::Skipped;
        }
    }
    let found = match find_text(content, search, start, end) {
        Some(found) => found,
        None => {
            return Step::Refused {
                refusal: PlacementRefusal::TargetMissing(
                    concat5(
                        "'",
                        reference,
                        "' has no '",
                        field,
                        "' property on one of its placed units",
                    ),
                ),
            };
        },
    };
    let value_start: usize = found + search.as_bytes().len();
    match (prop_end, closing_quote(content, value_start)) {
        (Some(limit), Some(quote)) => {
            if limit > content.as_bytes().len() || quote + 1 > limit {
                return Step::Refused { refusal: malformed_property(field, reference) };
            }
            match place_property(
                edits,
                content,
                reference,
                field,
                placement,
                numbers,
                quote + 1,
                limit,
            ) {
                Ok(_) => Step::Edited,
                Err(refusal) => Step::Refused { refusal },
            }
        },
        _ => Step::Refused { refusal: malformed_property(field, reference) },
    }
}

/// The edits of a placement with the number of units that they touch.
#[derive(PartialEq, Eq, Debug)]
pub struct PlacementEdits {
    pub edits: Vec<TextEdit>,
    pub touched: usize,
}

/// Builds the edits that move or hide one field on the placed units of a
/// component, or on one of them. `blocks` are the ranges of the units, and
/// `ends` tells for each where the property of the field ends.
///
/// The placement that is there is read strictly: a number that is missing,
/// that is none, or one too many is a refusal, since a wrong place that is
/// written into a schematic goes unnoticed.
pub fn set_property_placement(
    content: &str,
    blocks: &Vec<(usize, usize)>,
    ends: &Vec<Option<usize>>,
    reference: &str,
    field: &str,
    placement: &PlacementText,
    only_unit: Option<u32>,
    numbers: &TextMap<String>,
) -> (res: Result<PlacementEdits, PlacementRefusal>)
    requires
        ranges_fit(encode_utf8(content@), blocks@),
        ends@.len() == blocks@.len(),
    ensures
        blocks@.len() == 0 ==> (res matches Err(error) && refusal_view(error) == (RefusalView {
            malformed: false,
            reason: "symbol '"@ + reference@ + "' not found in this schematic"@,
        })),
        blocks@.len() > 0 ==> match placement_edits(
            encode_utf8(content@),
            reference@,
            field@,
            *placement,
            only_unit,
            numbers@,
            blocks@,
            ends@,
            blocks@.len(),
        ) {
            Err(refusal) => res matches Err(error) && refusal_view(error) == refusal,
            Ok(done) => if done.1 == 0 {
                res matches Err(error) && refusal_view(error) == (RefusalView {
                    malformed: false,
                    reason: no_unit(reference@, only_unit),
                })
            } else {
                res matches Ok(edits) && edit_views(edits.edits@) == done.0 && edits.touched
                    == done.1
            },
        },
{
    if blocks.len() == 0 {
        return Err(
            PlacementRefusal::TargetMissing(
                concat3("symbol '", reference, "' not found in this schematic"),
            ),
        );
    }
    let search = write_property_start(field);
    let ghost bytes = encode_utf8(content@);
    let mut edits: Vec<TextEdit> = Vec::new();
    let mut touched: usize = 0;
    let mut i: usize = 0;
    assert(edit_views(edits@) =~= Seq::empty());
    while i < blocks.len()
        invariant
            i <= blocks@.len(),
            blocks@.len() > 0,
            ends@.len() == blocks@.len(),
            bytes == encode_utf8(content@),
            ranges_fit(bytes, blocks@),
            search@ == property_start(field@),
            search@.len() > 0,
            touched <= i,
            placement_edits(
                bytes,
                reference@,
                field@,
                *placement,
                only_unit,
                numbers@,
                blocks@,
                ends@,
                i as nat,
            ) == Ok::<_, RefusalView>((edit_views(edits@), touched as nat)),
        decreases blocks@.len() - i,
    {
        let (start, end) = blocks[i];
        assert(blocks@[i as int] == (start, end));
        match place_block(
            &mut edits,
            content,
            search.as_str(),
            reference,
            field,
            placement,
            only_unit,
            numbers,
            start,
            end,
            ends[i],
        ) {
            Step::Skipped => {},
            Step::Edited => {
                touched += 1;
            },
            Step::Refused { refusal } => {
                proof {
                    lemma_refusal_stays(
                        bytes,
                        reference@,
                        field@,
                        *placement,
                        only_unit,
                        numbers@,
                        blocks@,
                        ends@,
                        (i + 1) as nat,
                    );
                }
                return Err(refusal);
            },
        }
        i += 1;
    }
    if touched == 0 {
        let number = match only_unit {
            Some(unit) => write_number_u64(unit as u64),
            None => String::new(),
        };
        return Err(
            PlacementRefusal::TargetMissing(
                {
                    let mut reason = concat3("'", reference, "' has no placed unit ");
                    reason.append(number.as_str());
                    reason
                },
            ),
        );
    }
    Ok(PlacementEdits { edits, touched })
}

/// The edit lies behind the value of the property.
pub open spec fn behind(edit: EditView, body: int) -> bool {
    body <= edit.start
}

proof fn lemma_blanks_stay_behind(bytes: Seq<u8>, body: int, at: int)
    requires
        0 < body <= at,
        bytes[body - 1] == 34,
    ensures
        body <= blanks_before(bytes, at) <= at,
    decreases at,
{
    if at > body {
        lemma_blanks_stay_behind(bytes, body, at - 1);
    }
}

/// Moving, hiding or showing a field never writes before the end of its value:
/// a value that looks like a placement stays as it is. `body` is where the text
/// behind the closing quotation mark of the value begins.
pub proof fn law_values_are_not_moved(
    bytes: Seq<u8>,
    reference: Seq<char>,
    field: Seq<char>,
    placement: PlacementText,
    numbers: Map<Seq<char>, String>,
    body: int,
    prop_end: int,
)
    requires
        0 < body <= prop_end <= bytes.len(),
        bytes[body - 1] == 34,
    ensures
        place_in_property(
            bytes,
            reference,
            field,
            placement,
            numbers,
            body,
            prop_end,
        ) matches BlockPlacement::Edit { edits } ==> forall|i: int|
            0 <= i < edits.len() ==> behind(#[trigger] edits[i], body),
{
    lemma_first_in_found(bytes, encode_utf8("(at "@), body, prop_end);
    match first_in(bytes, encode_utf8("(at "@), body, prop_end) {
        Some(at) => {
            lemma_first_byte_found(bytes, 41, at, prop_end);
        },
        None => {},
    }
    match placement.hide {
        Some(wanted) => {
            lemma_flags_stay_behind(bytes, field, reference, body, body, prop_end, wanted);
        },
        None => {},
    }
}

proof fn lemma_flags_stay_behind(
    bytes: Seq<u8>,
    field: Seq<char>,
    reference: Seq<char>,
    body: int,
    from: int,
    prop_end: int,
    hide: bool,
)
    requires
        0 < body <= from,
        prop_end <= bytes.len(),
        bytes[body - 1] == 34,
    ensures
        flag_edits(bytes, field, reference, from, prop_end, hide) matches Ok(edits)
            ==> forall|i: int| 0 <= i < edits.len() ==> behind(#[trigger] edits[i], body),
    decreases prop_end - from,
{
    if from <= prop_end {
        lemma_first_in_found(bytes, encode_utf8("(hide "@), from, prop_end);
        match first_in(bytes, encode_utf8("(hide "@), from, prop_end) {
            Some(flag) => {
                lemma_first_byte_found(bytes, 41, flag, prop_end);
                lemma_blanks_stay_behind(bytes, body, flag);
                match first_byte(bytes, 41, flag, prop_end) {
                    Some(close) => {
                        lemma_flags_stay_behind(
                            bytes,
                            field,
                            reference,
                            body,
                            behind_flag(bytes, flag, close, hide),
                            prop_end,
                            hide,
                        );
                    },
                    None => {},
                }
            },
            None => {},
        }
    }
}

pub proof fn lemma_first_byte_found(hay: Seq<u8>, byte: u8, from: int, to: int)
    ensures
        first_byte(hay, byte, from, to) matches Some(at) ==> from <= at < to && hay[at] == byte
            && forall|i: int| from <= i < at ==> #[trigger] hay[i] != byte,
    decreases to - from,
{
    if from < to {
        lemma_first_byte_found(hay, byte, from + 1, to);
    }
}

proof fn lemma_first_byte_is(hay: Seq<u8>, byte: u8, from: int, to: int, at: int)
    requires
        from <= at < to,
        hay[at] == byte,
        forall|i: int| from <= i < at ==> #[trigger] hay[i] != byte,
    ensures
        first_byte(hay, byte, from, to) == Some(at),
    decreases at - from,
{
    if from < at {
        lemma_first_byte_is(hay, byte, from + 1, to, at);
    }
}

/// The numbers between the brackets of the first placement in a range, as they
/// are written.
pub open spec fn placement_in(bytes: Seq<u8>, body: int, prop_end: int) -> Option<Seq<u8>> {
    match first_in(bytes, encode_utf8("(at "@), body, prop_end) {
        None => None,
        Some(at) => match first_byte(bytes, 41, at, prop_end) {
            None => None,
            Some(close) => Some(bytes.subrange(at + 4, close)),
        },
    }
}

/// A field that was moved is read back where it was put: the first placement
/// behind its value holds the numbers that were asked for, and those that were
/// there for what was not asked for. The range grows or shrinks with its text.
pub proof fn law_a_moved_field_reads_back(
    bytes: Seq<u8>,
    at: int,
    close: int,
    current: (Seq<char>, Seq<char>, Seq<char>),
    placement: PlacementText,
    body: int,
    prop_end: int,
    edit: EditView,
)
    requires
        0 <= body <= prop_end <= bytes.len(),
        first_in(bytes, encode_utf8("(at "@), body, prop_end) == Some(at),
        first_byte(bytes, 41, at, prop_end) == Some(close),
        move_edit(at, close + 1, current, placement) == seq![edit],
        !or_else(placement.x, current.0).contains(')'),
        !or_else(placement.y, current.1).contains(')'),
        !or_else(placement.rotation, current.2).contains(')'),
    ensures
        ({
            let after = with_edit(bytes, edit);
            placement_in(after, body, prop_end + after.len() - bytes.len()) == Some(
                encode_utf8(
                    or_else(placement.x, current.0) + " "@ + or_else(placement.y, current.1)
                        + " "@ + or_else(placement.rotation, current.2),
                ),
            )
        }),
{
    let needle = encode_utf8("(at "@);
    let (x, y, turn) = (
        or_else(placement.x, current.0),
        or_else(placement.y, current.1),
        or_else(placement.rotation, current.2),
    );
    let list = x + " "@ + y + " "@ + turn;
    let after = with_edit(bytes, edit);
    let end = prop_end + after.len() - bytes.len();
    reveal_strlit("(at ");
    reveal_strlit(" ");
    reveal_strlit(")");
    is_ascii_chars_encode_utf8("(at "@);
    is_ascii_chars_encode_utf8(")"@);
    lemma_first_in_found(bytes, needle, body, prop_end);
    lemma_first_byte_found(bytes, 41, at, prop_end);
    assert(seq![edit][0] == move_edit(at, close + 1, current, placement)[0]);
    assert(edit.text =~= "(at "@ + list + ")"@);
    lemma_encode_concat("(at "@ + list, ")"@);
    lemma_encode_concat("(at "@, list);
    let code = encode_utf8(list);
    assert(encode_utf8(")"@) =~= seq![41u8]);
    assert(encode_utf8(edit.text) == needle + code + seq![41u8]);
    assert(needle.len() == 4);
    assert(!list.contains(')')) by {
        if list.contains(')') {
            let i = list.index_of(')');
            let (a, b) = (x.len(), y.len());
            if i < a {
                assert(x[i] == ')');
            } else if i == a {
                assert(" "@[0] == ')');
            } else if i < a + 1 + b {
                assert(y[i - a - 1] == ')');
            } else if i == a + 1 + b {
                assert(" "@[0] == ')');
            } else {
                assert(turn[i - a - b - 2] == ')');
            }
        }
    }
    lemma_text_avoids(list, ')');
    let last = at + 4 + code.len();
    assert(after.subrange(at, at + 4) =~= needle);
    assert(after.subrange(at + 4, last) =~= code);
    assert(after[last] == 41);
    assert forall|i: int| 0 <= i < at + 4 implies #[trigger] after[i] == bytes[i] by {
        if i >= at {
            assert(after.subrange(at, at + 4)[i - at] == needle[i - at]);
            assert(bytes.subrange(at, at + 4)[i - at] == needle[i - at]);
        }
    }
    assert forall|p: int| body <= p < at implies !matches_at(after, needle, p) by {
        if matches_at(after, needle, p) {
            assert(bytes.subrange(p, p + 4) =~= after.subrange(p, p + 4));
            assert(matches_at(bytes, needle, p));
        }
    }
    lemma_first_in_is(after, needle, body, end, at);
    assert forall|i: int| at <= i < last implies #[trigger] after[i] != 41 by {
        if i < at + 4 {
            assert(after.subrange(at, at + 4)[i - at] == needle[i - at]);
        } else {
            assert(after.subrange(at + 4, last)[i - at - 4] == code[i - at - 4]);
            assert(encode_utf8(list)[i - at - 4] != ')' as u32);
        }
    }
    lemma_first_byte_is(after, 41, at, end, last);
}

} // verus!
