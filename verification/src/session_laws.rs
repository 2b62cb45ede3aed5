//! What an edit of a component takes and does, told from what was asked for
//! and from the blocks of its units.

use crate::decimal::number_text;
use crate::deletion::TopLevelBlock;
use crate::edit_session::{
    after_property, after_rename, checked_placement, custom_refusal, number_errors, part_errors,
    units_with_field, FlagArgument, NumberArgument, PlacementArgument, SessionView,
};
use crate::field_placement::{block_unit, place_in_block, placement_edits, PlacementText};
use crate::intent::ComponentTargetUnit;
use crate::lists::positions_where;
use crate::markers::{block_uuid, placed_flags};
use crate::property_edit::{
    all_in, anchor_of, block_change, block_indent, insertion, property_block, property_edits,
    property_start, renames, replacements, PropertyWriteCounts,
};
use crate::property_text::{escaped, quote_end, EditView};
use crate::replacement::{lib_id_edits, lib_id_range, replacement_plan, unit_edits};
use crate::scan::{
    first_byte, first_in, is_space, lemma_first_in_found, lemma_first_in_is, matches_at, part,
    words,
};
use crate::text::{lemma_can_be_ordered, lemma_ordered_list, ordered_list_of};
use crate::text_laws::{
    law_a_number_reads_back, law_the_first_byte_is_the_first, law_the_last_byte_is_the_last,
    law_trimming_takes_the_spaces_at_the_ends, lemma_digits, stands_in,
};
use crate::tool_error::{placement_outcome, OutcomeStatus, OutcomeSummary, Recovery};
use vstd::prelude::*;
use vstd::string::*;
use vstd::utf8::*;

verus! {

/// A number that was asked for: given as one, or not given.
pub open spec fn asks_number(argument: NumberArgument, value: Option<i64>) -> bool {
    match value {
        Some(number) => argument == NumberArgument::Number(number),
        None => argument == NumberArgument::Absent,
    }
}

/// A flag that was asked for: given as one, or not given.
pub open spec fn asks_flag(argument: FlagArgument, value: Option<bool>) -> bool {
    match value {
        Some(flag) => argument == FlagArgument::Flag(flag),
        None => argument == FlagArgument::Absent,
    }
}

/// A placement is taken exactly if it is an object whose parts are what they
/// should be, if it sets something, and if a place is not asked for several
/// units at once. What is taken is what was asked for.
pub proof fn law_a_placement_is_taken_when_it_makes_sense(
    reference: Seq<char>,
    unit_count: nat,
    name: Seq<char>,
    argument: PlacementArgument,
    only_unit: Option<u32>,
)
    ensures
        checked_placement(reference, unit_count, name, argument, only_unit) is Ok <==> (
        argument matches PlacementArgument::Object { x, y, rotation, hide } && x
            != NumberArgument::Other && y != NumberArgument::Other && rotation
            != NumberArgument::Other && hide != FlagArgument::Other && (x is Number || y is Number
            || rotation is Number || hide is Flag) && (x is Number || y is Number ==> only_unit
            is Some || unit_count <= 1)),
        checked_placement(reference, unit_count, name, argument, only_unit) matches Ok(placement)
            ==> (argument matches PlacementArgument::Object { x, y, rotation, hide } && asks_number(
            x,
            placement.x,
        ) && asks_number(y, placement.y) && asks_number(rotation, placement.rotation) && asks_flag(
            hide,
            placement.hide,
        )),
{
    match argument {
        PlacementArgument::NotAnObject => {},
        PlacementArgument::Object { x, y, rotation, hide } => {
            let errors = part_errors(name, x, y, rotation, hide);
            assert(errors.len() == number_errors(name, "x"@, x).len() + number_errors(
                name,
                "y"@,
                y,
            ).len() + number_errors(name, "rotation"@, rotation).len() + (if hide
                == FlagArgument::Other {
                1nat
            } else {
                0nat
            }));
        },
    }
}

/// A custom field is taken exactly if its value is a text and it has no
/// parameter of its own.
pub proof fn law_a_custom_field_is_taken_when_it_is_one(name: Seq<char>, is_text: bool)
    ensures
        custom_refusal(name, is_text) is None <==> is_text && !seq![
            "Reference"@,
            "Value"@,
            "Footprint"@,
            "Datasheet"@,
        ].contains(name),
{
    let list = seq!["Reference"@, "Value"@, "Footprint"@, "Datasheet"@];
    assert(list[0] == "Reference"@ && list[1] == "Value"@ && list[2] == "Footprint"@ && list[3]
        == "Datasheet"@);
}

/// A property that was set is noted once and expected with its value; one that
/// was not adds one error. Nothing else of the request changes.
pub proof fn law_every_step_is_noted_once(
    before: SessionView,
    field: Seq<char>,
    value: Seq<char>,
    outcome: Result<PropertyWriteCounts, String>,
)
    ensures
        ({
            let after = after_property(before, field, value, outcome);
            &&& after.edit_reference == before.edit_reference
            &&& after.placements == before.placements
            &&& after.placement_unit == before.placement_unit
            &&& outcome is Ok ==> {
                &&& after.changed.len() == before.changed.len() + 1
                &&& after.changed.drop_last() == before.changed
                &&& after.errors == before.errors
                &&& after.expected_fields.contains_key(field) && after.expected_fields[field]
                    == value
                &&& forall|other: Seq<char>|
                    other != field ==> (#[trigger] after.expected_fields.contains_key(other)
                        <==> before.expected_fields.contains_key(other)) && (
                    before.expected_fields.contains_key(other) ==> after.expected_fields[other]
                        == before.expected_fields[other])
            }
            &&& outcome is Err ==> {
                &&& after.changed == before.changed
                &&& after.errors.len() == before.errors.len() + 1
                &&& after.errors.drop_last() == before.errors
                &&& after.expected_fields == before.expected_fields
            }
        }),
{
    let after = after_property(before, field, value, outcome);
    if outcome is Ok {
        assert(after.changed.drop_last() =~= before.changed);
    } else {
        assert(after.errors.drop_last() =~= before.errors);
    }
}

/// A rename whose instance paths were rewritten goes on under the new
/// reference, is noted, and expects the new reference where it was set.
pub proof fn law_a_whole_rename_goes_on_under_the_new_name(
    before: SessionView,
    new_reference: Seq<char>,
    property: Result<PropertyWriteCounts, String>,
    instances: Result<usize, String>,
)
    requires
        instances is Ok,
    ensures
        ({
            let after = after_rename(before, new_reference, property, instances);
            &&& after.edit_reference == new_reference
            &&& property is Ok ==> after.changed.len() == before.changed.len() + 2 && after.errors
                == before.errors && after.expected_fields.contains_key("Reference"@)
                && after.expected_fields["Reference"@] == new_reference
            &&& property is Err ==> after.changed.len() == before.changed.len() + 1
                && after.errors.len() == before.errors.len() + 1 && after.expected_fields
                == before.expected_fields
            &&& after.placements == before.placements
        }),
{
}

/// The units that had a field are counted, each once.
pub proof fn law_every_unit_with_the_field_is_counted(
    units: Seq<ComponentTargetUnit>,
    key: Seq<char>,
    n: nat,
)
    requires
        n <= units.len(),
    ensures
        units_with_field(units, key, n) == positions_where(
            |i: int| units[i].fields@.contains_key(key),
            n,
        ).len(),
    decreases n,
{
    if n > 0 {
        law_every_unit_with_the_field_is_counted(units, key, (n - 1) as nat);
    }
}

/// A property of this name begins somewhere in the block.
pub open spec fn has_property(bytes: Seq<u8>, field: Seq<char>, block: (usize, usize)) -> bool {
    let search = encode_utf8(property_start(field));
    exists|at: int|
        block.0 <= at && at + search.len() <= block.1 && #[trigger] matches_at(bytes, search, at)
}

/// Setting a property changes it in every block that has it and adds it to
/// every other; without leave to add, a block that lacks it refuses the whole.
#[verifier::spinoff_prover]
pub proof fn law_a_property_is_set_in_every_block(
    bytes: Seq<u8>,
    reference: Seq<char>,
    field: Seq<char>,
    new_value: Seq<char>,
    add_missing: bool,
    numbers: Map<Seq<char>, String>,
    blocks: Seq<(usize, usize)>,
    n: nat,
)
    requires
        n <= blocks.len(),
        forall|i: int|
            0 <= i < blocks.len() ==> (#[trigger] blocks[i]).0 <= blocks[i].1 <= bytes.len(),
    ensures
        property_edits(
            bytes,
            reference,
            field,
            new_value,
            add_missing,
            numbers,
            blocks,
            n,
        ) matches Ok(done) ==> {
            &&& done.0.len() == n
            &&& done.1 == positions_where(|i: int| has_property(bytes, field, blocks[i]), n).len()
            &&& done.1 + done.2 == n
            &&& !add_missing ==> forall|i: int|
                0 <= i < n ==> has_property(bytes, field, #[trigger] blocks[i])
            &&& forall|i: int|
                0 <= i < n && has_property(bytes, field, #[trigger] blocks[i])
                    ==> done.0[i].text == escaped(new_value) && blocks[i].0 <= done.0[i].start
        },
    decreases n,
{
    if n > 0 {
        law_a_property_is_set_in_every_block(
            bytes,
            reference,
            field,
            new_value,
            add_missing,
            numbers,
            blocks,
            (n - 1) as nat,
        );
        let block = blocks[n - 1];
        let search = encode_utf8(property_start(field));
        lemma_first_in_found(bytes, search, block.0 as int, block.1 as int);
        let found = first_in(bytes, search, block.0 as int, block.1 as int);
        if found is Some {
            assert(matches_at(bytes, search, found->0));
            assert(has_property(bytes, field, block));
        } else {
            assert(!has_property(bytes, field, block));
        }
        let own = block_change(bytes, reference, field, new_value, add_missing, numbers, block);
        assert(own is Update ==> has_property(bytes, field, block));
        assert(own is Add ==> !has_property(bytes, field, block) && add_missing);
        let before = property_edits(
            bytes,
            reference,
            field,
            new_value,
            add_missing,
            numbers,
            blocks,
            (n - 1) as nat,
        );
        let after = property_edits(
            bytes,
            reference,
            field,
            new_value,
            add_missing,
            numbers,
            blocks,
            n,
        );
        if after is Ok {
            let (rest, all) = (before->Ok_0.0, after->Ok_0.0);
            assert forall|i: int| 0 <= i < n - 1 implies #[trigger] all[i] == rest[i] by {}
            assert forall|i: int|
                0 <= i < n && has_property(bytes, field, #[trigger] blocks[i]) implies all[i].text
                == escaped(new_value) && blocks[i].0 <= all[i].start by {
                if i < n - 1 {
                    assert(all[i] == rest[i]);
                }
            }
        }
    }
}

/// The block is one that a placement is asked for: every one without a unit,
/// and those of its number with one.
pub open spec fn is_asked_for(bytes: Seq<u8>, block: (usize, usize), only_unit: Option<u32>) -> bool {
    only_unit matches Some(unit) ==> block_unit(bytes, block.0 as int, block.1 as int) == unit
}

/// A placement touches every block that it is asked for and no other, and is
/// refused where such a block lacks the property.
pub proof fn law_a_placement_touches_what_it_is_asked_for(
    bytes: Seq<u8>,
    reference: Seq<char>,
    field: Seq<char>,
    placement: PlacementText,
    only_unit: Option<u32>,
    numbers: Map<Seq<char>, String>,
    blocks: Seq<(usize, usize)>,
    ends: Seq<Option<usize>>,
    n: nat,
)
    requires
        n <= blocks.len(),
        n <= ends.len(),
        forall|i: int|
            0 <= i < blocks.len() ==> (#[trigger] blocks[i]).0 <= blocks[i].1 <= bytes.len(),
    ensures
        placement_edits(
            bytes,
            reference,
            field,
            placement,
            only_unit,
            numbers,
            blocks,
            ends,
            n,
        ) matches Ok(done) ==> {
            &&& done.1 == positions_where(|i: int| is_asked_for(bytes, blocks[i], only_unit), n).len()
            &&& forall|i: int|
                0 <= i < n && is_asked_for(bytes, #[trigger] blocks[i], only_unit) ==> has_property(
                    bytes,
                    field,
                    blocks[i],
                )
        },
    decreases n,
{
    if n > 0 {
        law_a_placement_touches_what_it_is_asked_for(
            bytes,
            reference,
            field,
            placement,
            only_unit,
            numbers,
            blocks,
            ends,
            (n - 1) as nat,
        );
        let block = blocks[n - 1];
        let search = encode_utf8(property_start(field));
        lemma_first_in_found(bytes, search, block.0 as int, block.1 as int);
        let found = first_in(bytes, search, block.0 as int, block.1 as int);
        if found is Some {
            assert(matches_at(bytes, search, found->0));
            assert(has_property(bytes, field, block));
        }
        let own = place_in_block(
            bytes,
            reference,
            field,
            placement,
            only_unit,
            numbers,
            block,
            ends[n - 1],
        );
        assert(own is Skip <==> !is_asked_for(bytes, block, only_unit));
        assert(own is Edit ==> has_property(bytes, field, block));
    }
}

/// These are places of a text within a range that do not overlap, and every
/// place of it there is met by one of them.
pub open spec fn meets_every_place(
    hay: Seq<u8>,
    needle: Seq<u8>,
    from: int,
    to: int,
    at: Seq<int>,
) -> bool {
    &&& forall|i: int|
        0 <= i < at.len() ==> from <= #[trigger] at[i] && at[i] + needle.len() <= to && matches_at(
            hay,
            needle,
            at[i],
        )
    &&& forall|i: int, j: int|
        0 <= i < j < at.len() ==> #[trigger] at[i] + needle.len() <= #[trigger] at[j]
    &&& forall|p: int|
        from <= p && p + needle.len() <= to && #[trigger] matches_at(hay, needle, p) ==> is_met(
            at,
            p,
            needle.len(),
        )
}

/// A place overlaps one of these that does not stand behind it.
pub open spec fn is_met(at: Seq<int>, p: int, length: nat) -> bool {
    exists|i: int| 0 <= i < at.len() && p - length < #[trigger] at[i] <= p
}

/// The places at which a text is replaced are places of it, they do not
/// overlap, and no place of it is left beside them.
#[verifier::spinoff_prover]
pub proof fn law_no_occurrence_is_left(hay: Seq<u8>, needle: Seq<u8>, from: int, to: int)
    requires
        0 <= from,
        to <= hay.len(),
        needle.len() > 0,
    ensures
        meets_every_place(hay, needle, from, to, all_in(hay, needle, from, to)),
    decreases to - from,
{
    let all = all_in(hay, needle, from, to);
    if from <= to {
        lemma_first_in_found(hay, needle, from, to);
        let found = first_in(hay, needle, from, to);
        if found is Some {
            let at = found->0;
            let next = at + needle.len();
            law_no_occurrence_is_left(hay, needle, next, to);
            let rest = all_in(hay, needle, next, to);
            assert(all == seq![at] + rest);
            assert(all[0] == at);
            assert forall|i: int| 0 < i < all.len() implies #[trigger] all[i] == rest[i - 1] by {}
            assert forall|p: int|
                from <= p && p + needle.len() <= to && #[trigger] matches_at(
                    hay,
                    needle,
                    p,
                ) implies is_met(all, p, needle.len()) by {
                if p >= next {
                    assert(is_met(rest, p, needle.len()));
                    let k = choose|k: int|
                        0 <= k < rest.len() && p - needle.len() < #[trigger] rest[k] <= p;
                    assert(all[k + 1] == rest[k]);
                } else {
                    assert(at <= p);
                }
            }
        }
    }
}

/// Every place of the old entry in every block is given the new one.
pub proof fn law_every_entry_of_every_block_is_renamed(
    bytes: Seq<u8>,
    old_entry: Seq<u8>,
    new_entry: Seq<char>,
    blocks: Seq<(usize, usize)>,
    n: nat,
    b: int,
    k: int,
)
    requires
        n <= blocks.len(),
        0 <= b < n,
        0 <= k < all_in(bytes, old_entry, blocks[b].0 as int, blocks[b].1 as int).len(),
    ensures
        renames(bytes, old_entry, new_entry, blocks, n).contains(
            EditView {
                start: all_in(bytes, old_entry, blocks[b].0 as int, blocks[b].1 as int)[k],
                end: all_in(bytes, old_entry, blocks[b].0 as int, blocks[b].1 as int)[k]
                    + old_entry.len(),
                text: new_entry,
            },
        ),
    decreases n,
{
    let rest = renames(bytes, old_entry, new_entry, blocks, (n - 1) as nat);
    let own = replacements(
        all_in(bytes, old_entry, blocks[n - 1].0 as int, blocks[n - 1].1 as int),
        old_entry.len() as int,
        new_entry,
    );
    let all = renames(bytes, old_entry, new_entry, blocks, n);
    let at = all_in(bytes, old_entry, blocks[b].0 as int, blocks[b].1 as int)[k];
    let edit = EditView { start: at, end: at + old_entry.len(), text: new_entry };
    if b < n - 1 {
        law_every_entry_of_every_block_is_renamed(
            bytes,
            old_entry,
            new_entry,
            blocks,
            (n - 1) as nat,
            b,
            k,
        );
        assert(all[rest.index_of(edit)] == edit);
    } else {
        assert(all[rest.len() + k] == own[k]);
    }
}

/// Replacing a symbol writes the new library name over the old one in every
/// block, and reads the old names in the same order.
pub proof fn law_every_block_gets_the_new_library_name(
    bytes: Seq<u8>,
    reference: Seq<char>,
    new_lib_id: Seq<char>,
    blocks: Seq<(usize, usize)>,
    n: nat,
)
    requires
        n <= blocks.len(),
    ensures
        lib_id_edits(bytes, reference, new_lib_id, blocks, n) is Ok <==> forall|i: int|
            0 <= i < n ==> lib_id_range(bytes, #[trigger] blocks[i]) is Ok,
        lib_id_edits(bytes, reference, new_lib_id, blocks, n) matches Ok(done) ==> done.0.len() == n
            && done.1.len() == n && forall|i: int|
            0 <= i < n ==> {
                let range = lib_id_range(bytes, #[trigger] blocks[i])->Ok_0;
                &&& done.0[i].start == range.0
                &&& done.0[i].end == range.1
                &&& done.0[i].text == escaped(new_lib_id)
                &&& done.1[i] == part(bytes, range.0, range.1)
            },
    decreases n,
{
    if n > 0 {
        law_every_block_gets_the_new_library_name(
            bytes,
            reference,
            new_lib_id,
            blocks,
            (n - 1) as nat,
        );
    }
}

/// The library name of a block stands between the quotation marks of its first
/// entry.
pub proof fn law_the_library_name_is_that_of_the_first_entry(bytes: Seq<u8>, block: (usize, usize))
    requires
        block.0 <= block.1 <= bytes.len(),
    ensures
        lib_id_range(bytes, block) matches Ok(range) ==> {
            let search = encode_utf8("(lib_id \""@);
            let at = range.0 - search.len();
            &&& block.0 <= at && range.0 <= block.1
            &&& matches_at(bytes, search, at)
            &&& forall|p: int| block.0 <= p < at ==> !matches_at(bytes, search, p)
            &&& quote_end(bytes, range.0, false) == Some(range.1)
        },
        lib_id_range(bytes, block) == Err::<(int, int), bool>(false) <==> forall|p: int|
            block.0 <= p && p + encode_utf8("(lib_id \""@).len() <= block.1 ==> !#[trigger] matches_at(
                bytes,
                encode_utf8("(lib_id \""@),
                p,
            ),
{
    let search = encode_utf8("(lib_id \""@);
    lemma_first_in_found(bytes, search, block.0 as int, block.1 as int);
    let found = first_in(bytes, search, block.0 as int, block.1 as int);
    if found is Some {
        assert(matches_at(bytes, search, found->0));
    }
}

/// Every flag that has a place is told with it and with its identifier, in
/// order, and no other.
pub proof fn law_every_placed_flag_is_told(
    blocks: Seq<TopLevelBlock>,
    flags: Seq<int>,
    places: Seq<Option<(i64, i64)>>,
    n: nat,
)
    requires
        n <= places.len(),
        n <= flags.len(),
    ensures
        placed_flags(blocks, flags, places, n) == positions_where(
            |i: int| places[i] is Some,
            n,
        ).map_values(
            |i: int| ((places[i]->0).0, (places[i]->0).1, block_uuid(blocks[flags[i]])),
        ),
    decreases n,
{
    if n > 0 {
        law_every_placed_flag_is_told(blocks, flags, places, (n - 1) as nat);
    }
    assert(placed_flags(blocks, flags, places, n) =~= positions_where(
        |i: int| places[i] is Some,
        n,
    ).map_values(|i: int| ((places[i]->0).0, (places[i]->0).1, block_uuid(blocks[flags[i]]))));
}

/// Every unit entry of a block is renumbered, up to its closing bracket, unless
/// it stands within another: the edits are of unit entries, and an entry with
/// none of them before it that is still open has its edit.
#[verifier::spinoff_prover]
pub proof fn law_every_unit_entry_is_renumbered(bytes: Seq<u8>, from: int, end: int, unit: u32)
    requires
        0 <= from,
        end <= bytes.len(),
    ensures
        forall|i: int|
            0 <= i < unit_edits(bytes, from, end, unit).len() ==> renumbers(
                bytes,
                #[trigger] unit_edits(bytes, from, end, unit)[i],
                from,
                end,
                unit,
            ),
        forall|p: int|
            from <= p && p + 6 <= end && #[trigger] matches_at(bytes, encode_utf8("(unit "@), p) && (
            forall|q: int|
                from <= q < p && #[trigger] matches_at(bytes, encode_utf8("(unit "@), q)
                    ==> closes(bytes, q + 6, p)) && closes(bytes, p + 6, end) ==> exists|i: int|
                0 <= i < unit_edits(bytes, from, end, unit).len() && (#[trigger] unit_edits(
                    bytes,
                    from,
                    end,
                    unit,
                )[i]).start == p + 6,
    decreases end - from,
{
    let needle = encode_utf8("(unit "@);
    reveal_strlit("(unit ");
    is_ascii_chars_encode_utf8("(unit "@);
    let all = unit_edits(bytes, from, end, unit);
    if from <= end {
        lemma_first_in_found(bytes, needle, from, end);
        let found = first_in(bytes, needle, from, end);
        if found is Some {
            let at = found->0;
            law_the_first_byte_is_the_first(bytes, 41, at + 6, end);
            let shut = first_byte(bytes, 41, at + 6, end);
            if shut is Some {
                let close = shut->0;
                law_every_unit_entry_is_renumbered(bytes, close, end, unit);
                let rest = unit_edits(bytes, close, end, unit);
                assert(all.len() == rest.len() + 1);
                assert(all[0].start == at + 6 && all[0].end == close);
                assert forall|i: int| 0 <= i < all.len() implies renumbers(
                    bytes,
                    #[trigger] all[i],
                    from,
                    end,
                    unit,
                ) by {
                    if i > 0 {
                        assert(all[i] == rest[i - 1]);
                    }
                }
            }
            assert forall|p: int|
                from <= p && p + 6 <= end && #[trigger] matches_at(bytes, needle, p) && (forall|
                    q: int,
                |
                    from <= q < p && #[trigger] matches_at(bytes, needle, q) ==> closes(
                        bytes,
                        q + 6,
                        p,
                    )) && closes(bytes, p + 6, end) implies exists|i: int|
                0 <= i < all.len() && (#[trigger] all[i]).start == p + 6 by {
                assert(at <= p);
                if at < p {
                    assert(closes(bytes, at + 6, p));
                    let c = choose|c: int| at + 6 <= c < p && #[trigger] bytes[c] == 41;
                    assert(shut is Some && shut->0 <= c);
                    let rest = unit_edits(bytes, shut->0, end, unit);
                    assert(all.len() == rest.len() + 1);
                    let k = choose|k: int| 0 <= k < rest.len() && (#[trigger] rest[k]).start
                        == p + 6;
                    assert(all[k + 1] == rest[k]);
                } else {
                    let c = choose|c: int| p + 6 <= c < end && #[trigger] bytes[c] == 41;
                    assert(shut is Some);
                    assert(all[0].start == p + 6);
                }
            }
        }
    }
}

/// A closing bracket stands in this range.
pub open spec fn closes(bytes: Seq<u8>, from: int, to: int) -> bool {
    exists|c: int| from <= c < to && #[trigger] bytes[c] == 41
}

/// The edit writes a number over what a unit entry of this range holds.
pub open spec fn renumbers(bytes: Seq<u8>, edit: EditView, from: int, end: int, unit: u32) -> bool {
    &&& from + 6 <= edit.start <= edit.end < end
    &&& matches_at(bytes, encode_utf8("(unit "@), edit.start - 6)
    &&& bytes[edit.end] == 41
    &&& forall|c: int| edit.start <= c < edit.end ==> #[trigger] bytes[c] != 41
    &&& edit.text == number_text(unit as nat)
}

/// A replacement is planned exactly if every block has a library name and all
/// of them the same; it renames each and renumbers the first where a unit was
/// asked for.
#[verifier::spinoff_prover]
pub proof fn law_a_replacement_is_of_one_library_name(
    bytes: Seq<u8>,
    reference: Seq<char>,
    new_lib_id: Seq<char>,
    new_unit: Option<u32>,
    blocks: Seq<(usize, usize)>,
)
    requires
        blocks.len() > 0,
    ensures
        replacement_plan(bytes, reference, new_lib_id, new_unit, blocks) is Ok <==> exists|
            name: Seq<char>,
        | #[trigger]
            all_named(bytes, blocks, name),
        replacement_plan(bytes, reference, new_lib_id, new_unit, blocks) matches Ok(plan)
            ==> all_named(bytes, blocks, plan.1) && plan.0.len() >= blocks.len() && (forall|i: int|
            0 <= i < blocks.len() ==> (#[trigger] plan.0[i]).text == escaped(new_lib_id)
                && plan.0[i].start == lib_id_range(bytes, blocks[i])->Ok_0.0 && plan.0[i].end
                == lib_id_range(bytes, blocks[i])->Ok_0.1) && plan.0.skip(blocks.len() as int)
            == match new_unit {
            Some(unit) => unit_edits(bytes, blocks[0].0 as int, blocks[0].1 as int, unit),
            None => Seq::empty(),
        },
{
    law_every_block_gets_the_new_library_name(bytes, reference, new_lib_id, blocks, blocks.len());
    let done = lib_id_edits(bytes, reference, new_lib_id, blocks, blocks.len());
    if done is Ok {
        let old = done->Ok_0.1;
        let names = ordered_list_of(old.to_set());
        lemma_can_be_ordered(Seq::empty(), old, old.to_set());
        assert(old.to_set().contains(old[0]));
        if names.len() == 1 {
            assert forall|i: int| 0 <= i < blocks.len() implies names_library(
                bytes,
                #[trigger] blocks[i],
                names[0],
            ) by {
                assert(old.to_set().contains(old[i]));
                assert(names.contains(old[i]));
            }
            assert(all_named(bytes, blocks, names[0]));
            let plan = replacement_plan(bytes, reference, new_lib_id, new_unit, blocks)->Ok_0;
            let units = match new_unit {
                Some(unit) => unit_edits(bytes, blocks[0].0 as int, blocks[0].1 as int, unit),
                None => Seq::empty(),
            };
            assert(plan.0.skip(blocks.len() as int) =~= units);
            assert forall|i: int| 0 <= i < blocks.len() implies (#[trigger] plan.0[i])
                == done->Ok_0.0[i] && lib_id_range(bytes, blocks[i]) is Ok by {}
        }
        if exists|name: Seq<char>| #[trigger] all_named(bytes, blocks, name) {
            let name = choose|name: Seq<char>| #[trigger] all_named(bytes, blocks, name);
            assert forall|x: Seq<char>| seq![name].contains(x) <==> old.to_set().contains(x) by {
                assert(names_library(bytes, blocks[0], name));
                assert(old[0] == name);
                assert(seq![name][0] == name);
                if old.to_set().contains(x) {
                    let i = old.index_of(x);
                    assert(names_library(bytes, blocks[i], name));
                }
            }
            lemma_ordered_list(seq![name], old.to_set());
        }
    } else {
        assert forall|name: Seq<char>| !#[trigger] all_named(bytes, blocks, name) by {
            let i = choose|i: int|
                0 <= i < blocks.len() && !(lib_id_range(bytes, #[trigger] blocks[i]) is Ok);
            assert(!names_library(bytes, blocks[i], name));
        }
    }
}

/// The block has this library name.
pub open spec fn names_library(bytes: Seq<u8>, block: (usize, usize), name: Seq<char>) -> bool {
    lib_id_range(bytes, block) matches Ok(range) && part(bytes, range.0, range.1) == name
}

/// Every block has this library name.
pub open spec fn all_named(
    bytes: Seq<u8>,
    blocks: Seq<(usize, usize)>,
    name: Seq<char>,
) -> bool {
    forall|i: int| 0 <= i < blocks.len() ==> names_library(bytes, #[trigger] blocks[i], name)
}

/// A property is added just before the bracket that closes its block, where the
/// symbol's own place can be read: at that place, with its name and value.
pub proof fn law_an_added_property_ends_its_block(
    bytes: Seq<u8>,
    reference: Seq<char>,
    start: int,
    end: int,
    name: Seq<char>,
    value: Seq<char>,
    numbers: Map<Seq<char>, String>,
)
    ensures
        insertion(bytes, reference, start, end, name, value, numbers) is Ok <==> anchor_of(
            bytes,
            start,
            end,
            numbers,
        ) is Some && closes(bytes, start, end),
        insertion(bytes, reference, start, end, name, value, numbers) matches Ok(edit) ==> {
            let anchor = anchor_of(bytes, start, end, numbers)->0;
            &&& start <= edit.start < end
            &&& edit.end == edit.start
            &&& bytes[edit.start] == 41
            &&& forall|c: int| edit.start < c < end ==> #[trigger] bytes[c] != 41
            &&& edit.text == property_block(
                block_indent(bytes, start, end),
                name,
                value,
                anchor.0,
                anchor.1,
            )
        },
{
    law_the_last_byte_is_the_last(bytes, 41, start, end);
    if closes(bytes, start, end) {
        let c = choose|c: int| start <= c < end && #[trigger] bytes[c] == 41;
        assert(bytes[c] == 41);
    }
}

/// The place of a symbol is the first two numbers behind its first placement.
pub proof fn law_a_symbol_stands_at_its_first_placement(
    bytes: Seq<u8>,
    start: int,
    end: int,
    numbers: Map<Seq<char>, String>,
    at: int,
    close: int,
)
    requires
        0 <= start <= at,
        at + 4 <= close < end <= bytes.len(),
        matches_at(bytes, encode_utf8("(at "@), at),
        forall|p: int| start <= p < at ==> !#[trigger] matches_at(bytes, encode_utf8("(at "@), p),
        bytes[close] == 41,
        forall|c: int| at + 4 <= c < close ==> #[trigger] bytes[c] != 41,
    ensures
        ({
            let list = words(part(bytes, at + 4, close));
            let readable = list.len() >= 2 && numbers.contains_key(list[0])
                && numbers.contains_key(list[1]);
            &&& anchor_of(bytes, start, end, numbers) is Some <==> readable
            &&& readable ==> anchor_of(bytes, start, end, numbers) == Some(
                (numbers[list[0]]@, numbers[list[1]]@),
            )
        }),
{
    reveal_strlit("(at ");
    is_ascii_chars_encode_utf8("(at "@);
    lemma_first_in_is(bytes, encode_utf8("(at "@), start, end, at);
    law_the_first_byte_is_the_first(bytes, 41, at + 4, end);
    let found = first_byte(bytes, 41, at + 4, end);
    assert(found is Some);
    if found->0 < close {
        assert(bytes[found->0] != 41);
    } else if found->0 > close {
        assert(bytes[close] != 41);
    }
}

/// The unit of a block is the number in its first unit entry; a block without
/// one is of the first unit.
pub proof fn law_a_block_is_of_the_unit_it_names(bytes: Seq<u8>, start: int, end: int, at: int, unit: u32)
    requires
        0 <= start <= at,
        at + 6 + encode_utf8(number_text(unit as nat)).len() < end <= bytes.len(),
        matches_at(bytes, encode_utf8("(unit "@), at),
        forall|p: int| start <= p < at ==> !#[trigger] matches_at(bytes, encode_utf8("(unit "@), p),
        bytes.subrange(at + 6, at + 6 + encode_utf8(number_text(unit as nat)).len())
            == encode_utf8(number_text(unit as nat)),
        bytes[at + 6 + encode_utf8(number_text(unit as nat)).len()] == 41,
    ensures
        block_unit(bytes, start, end) == unit,
{
    let text = number_text(unit as nat);
    let close = at + 6 + encode_utf8(text).len();
    reveal_strlit("(unit ");
    is_ascii_chars_encode_utf8("(unit "@);
    lemma_first_in_is(bytes, encode_utf8("(unit "@), start, end, at);
    law_a_number_reads_back(unit as nat);
    lemma_digits(unit as nat);
    assert(is_ascii_chars(text));
    is_ascii_chars_encode_utf8(text);
    law_the_first_byte_is_the_first(bytes, 41, at + 6, end);
    let found = first_byte(bytes, 41, at + 6, end);
    assert(bytes[close] == 41);
    assert(found is Some);
    if found->0 < close {
        let i = found->0 - at - 6;
        assert(bytes.subrange(at + 6, close)[i] == bytes[found->0]);
        assert(encode_utf8(text)[i] == text[i] as u8);
        assert('0' <= text[i] <= '9');
    }
    encode_utf8_decode_utf8(text);
    let ends = law_trimming_takes_the_spaces_at_the_ends(text);
    assert forall|i: int| 0 <= i < text.len() implies !is_space(#[trigger] text[i]) by {
        assert('0' <= text[i] <= '9');
    }
    if ends.0 > 0 {
        assert(is_space(text.take(ends.0)[0]));
        assert(text.take(ends.0)[0] == text[0]);
    }
    if ends.1 < text.len() {
        assert(is_space(text.skip(ends.1)[0]));
        assert(text.skip(ends.1)[0] == text[ends.1]);
    }
    assert(text.subrange(0, text.len() as int) =~= text);
}

/// A block without a unit entry is of the first unit.
pub proof fn law_a_block_without_a_unit_is_of_the_first(bytes: Seq<u8>, start: int, end: int)
    requires
        0 <= start,
        end <= bytes.len(),
        forall|p: int|
            start <= p && p + 6 <= end ==> !#[trigger] matches_at(bytes, encode_utf8("(unit "@), p),
    ensures
        block_unit(bytes, start, end) == 1,
{
    reveal_strlit("(unit ");
    is_ascii_chars_encode_utf8("(unit "@);
    lemma_first_in_found(bytes, encode_utf8("(unit "@), start, end);
    let found = first_in(bytes, encode_utf8("(unit "@), start, end);
    if found is Some {
        assert(matches_at(bytes, encode_utf8("(unit "@), found->0));
    }
}

/// The outcome of one placement adds up: it either succeeded or failed, and
/// only one that did not succeed says how to go on.
pub proof fn law_an_outcome_adds_up(
    outcome: OutcomeSummary,
    status: OutcomeStatus,
    target: Seq<char>,
    verification: Seq<char>,
)
    requires
        placement_outcome(outcome, status, target, verification),
    ensures
        outcome.status == status,
        outcome.target@ == target,
        outcome.requested == 1,
        outcome.succeeded + outcome.failed == outcome.requested,
        outcome.succeeded == 1 <==> status == OutcomeStatus::Complete,
        outcome.recovery is None <==> status == OutcomeStatus::Complete,
        outcome.recovery == Some(Recovery::RetryWholeRequest) <==> status == OutcomeStatus::Failed,
        outcome.recovery == Some(Recovery::InspectBeforeRetry) <==> status
            == OutcomeStatus::Uncertain,
{
}

/// A property that is added carries its name and its value, stands at the place
/// given, upright, and is hidden.
pub proof fn law_an_added_property_is_hidden_at_its_place(
    indent: Seq<char>,
    name: Seq<char>,
    value: Seq<char>,
    x: Seq<char>,
    y: Seq<char>,
)
    ensures
        ({
            let text = property_block(indent, name, value, x, y);
            &&& stands_in(
                text,
                "(property \""@ + escaped(name) + "\" \""@ + escaped(value) + "\""@,
                (1 + indent.len()) as int,
            )
            &&& exists|p: int| #[trigger] stands_in(text, "(at "@ + x + " "@ + y + " 0)"@, p)
            &&& exists|p: int| #[trigger] stands_in(text, "(hide yes)"@, p)
        }),
{
    let (tab, line) = (seq!['\t'], seq!['\n']);
    lemma_layout_texts();
    let (n, v) = (escaped(name), escaped(value));
    let first = "\n"@ + indent;
    let named = first + "(property \""@ + n + "\" \""@ + v + "\"\n"@;
    let placed = named + indent + "\t(at "@ + x + " "@ + y + " 0)\n"@;
    let hidden = placed + indent + "\t(hide yes)\n"@;
    let head = "(property \""@ + n + "\" \""@ + v + "\""@;
    let place = "(at "@ + x + " "@ + y + " 0)"@;
    lemma_head(first, "(property \""@, n, "\" \""@, v, "\""@, line);
    lemma_stands(first, head, line, named);
    lemma_place(named + indent, tab, "(at "@, x, " "@, y, " 0)"@, line);
    lemma_stands(named + indent + tab, place, line, placed);
    assert(hidden =~= (placed + indent + tab) + "(hide yes)"@ + line);
    lemma_stands(placed + indent + tab, "(hide yes)"@, line, hidden);
    let (p, q) = ((named + indent + tab).len() as int, (placed + indent + tab).len() as int);
    let r = first.len() as int;
    let at = indent + "\t(at "@ + x + " "@ + y + " 0)\n"@;
    lemma_extends(named, at, placed, head, r);
    lemma_extends(placed, indent + "\t(hide yes)\n"@, hidden, head, r);
    lemma_extends(placed, indent + "\t(hide yes)\n"@, hidden, place, p);
    let a = hidden + indent + "\t(effects\n"@ + indent + "\t\t(font\n"@;
    let b = a + indent + "\t\t\t(size 1.27 1.27)\n"@ + indent + "\t\t)\n"@;
    let text = b + indent + "\t)\n"@ + indent + ")"@;
    let more = indent + "\t(effects\n"@ + indent + "\t\t(font\n"@;
    let rest = indent + "\t\t\t(size 1.27 1.27)\n"@ + indent + "\t\t)\n"@;
    let last = indent + "\t)\n"@ + indent + ")"@;
    lemma_extends(hidden, more, a, head, r);
    lemma_extends(hidden, more, a, place, p);
    lemma_extends(hidden, more, a, "(hide yes)"@, q);
    lemma_extends(a, rest, b, head, r);
    lemma_extends(a, rest, b, place, p);
    lemma_extends(a, rest, b, "(hide yes)"@, q);
    lemma_extends(b, last, text, head, r);
    lemma_extends(b, last, text, place, p);
    lemma_extends(b, last, text, "(hide yes)"@, q);
    assert(text == property_block(indent, name, value, x, y));
}

/// How the pieces of a property block end and begin.
proof fn lemma_layout_texts()
    ensures
        "\n"@.len() == 1,
        "\t(at "@ == seq!['\t'] + "(at "@,
        " 0)\n"@ == " 0)"@ + seq!['\n'],
        "\t(hide yes)\n"@ == seq!['\t'] + "(hide yes)"@ + seq!['\n'],
        "\"\n"@ == "\""@ + seq!['\n'],
{
    reveal_strlit("\n");
    reveal_strlit("\t(at ");
    reveal_strlit("(at ");
    reveal_strlit(" 0)\n");
    reveal_strlit(" 0)");
    reveal_strlit("\t(hide yes)\n");
    reveal_strlit("(hide yes)");
    reveal_strlit("\"\n");
    reveal_strlit("\"");
    assert("\t(at "@ =~= seq!['\t'] + "(at "@);
    assert(" 0)\n"@ =~= " 0)"@ + seq!['\n']);
    assert("\t(hide yes)\n"@ =~= seq!['\t'] + "(hide yes)"@ + seq!['\n']);
    assert("\"\n"@ =~= "\""@ + seq!['\n']);
}

proof fn lemma_head(
    first: Seq<char>,
    a: Seq<char>,
    n: Seq<char>,
    b: Seq<char>,
    v: Seq<char>,
    c: Seq<char>,
    line: Seq<char>,
)
    ensures
        first + a + n + b + v + (c + line) == first + (a + n + b + v + c) + line,
{
    assert(first + a + n + b + v + (c + line) =~= first + (a + n + b + v + c) + line);
}

proof fn lemma_place(
    first: Seq<char>,
    tab: Seq<char>,
    at: Seq<char>,
    x: Seq<char>,
    s: Seq<char>,
    y: Seq<char>,
    z: Seq<char>,
    line: Seq<char>,
)
    ensures
        first + (tab + at) + x + s + y + (z + line) == (first + tab) + (at + x + s + y + z) + line,
{
    assert(first + (tab + at) + x + s + y + (z + line) =~= (first + tab) + (at + x + s + y + z)
        + line);
}

proof fn lemma_extends(before: Seq<char>, more: Seq<char>, text: Seq<char>, own: Seq<char>, p: int)
    requires
        stands_in(before, own, p),
        text =~= before + more,
    ensures
        stands_in(text, own, p),
{
    assert(text.subrange(p, p + own.len()) =~= before.subrange(p, p + own.len()));
}

proof fn lemma_stands(before: Seq<char>, own: Seq<char>, after: Seq<char>, text: Seq<char>)
    requires
        text =~= before + own + after,
    ensures
        stands_in(text, own, before.len() as int),
{
    assert(text.subrange(before.len() as int, (before.len() + own.len()) as int) =~= own);
}

} // verus!
