//! What reading a component back comes to, told from the symbols and their
//! properties.

use crate::deletion::{indexed, is_symbol};
use crate::intent::{
    find_unit, first_difference, first_field_off, first_missed, intent_outcome, intents_outcome,
    missed, placements_fault, seen_on, target_uuids, unit_fault, units_fault,
    ComponentMutationIntent, ComponentTargetUnit, FieldPlacement,
};
use crate::lists::{lemma_positions, lemma_same_positions, positions_where};
use crate::readback::{
    by_unit, fields_of, find_observed, first_other, first_unbound, named_references, observe_unit,
    observe_units, observed_references, placed_by_unit, placements_of, readback, some_path_unnamed,
    some_unreferenced, with_uuid, ComponentObservation, ReadSchematic, UnitView,
};
use crate::sexp::nodes;
use crate::symbol::{
    is_hidden, path_views, property_value, record_fault, record_of_other_project, record_paths,
    record_repeated, records_fault, usage, SheetSymbol, SymbolProperty,
};
use crate::text::{
    lemma_can_be_ordered, lemma_ordered_list, lemma_text_before_irreflexive, opt_text,
    ordered_list_of, strictly_ordered,
};
use vstd::prelude::*;
use vstd::string::*;

verus! {

/// Records of use that fit their symbol: each is complete, names the symbol's
/// reference and unit, and they are of one project with a path each.
pub open spec fn records_fit(symbol: SheetSymbol) -> bool {
    let records = symbol.instances@;
    &&& forall|i: int|
        0 <= i < records.len() ==> (#[trigger] records[i]).project is Some && records[i].path is Some
            && opt_text(records[i].reference) is Some && records[i].unit == Some(symbol.unit)
            && opt_text(records[i].reference) == symbol.value_of("Reference"@)
    &&& forall|i: int, j: int|
        0 <= i < j < records.len() ==> (#[trigger] records[i]).project->0@ == (
        #[trigger] records[j]).project->0@ && records[i].path->0@ != records[j].path->0@
}

/// A symbol's records of use are refused exactly if they do not fit it.
pub proof fn law_records_are_accepted_when_they_fit(path: Seq<char>, symbol: SheetSymbol)
    ensures
        records_fault(path, symbol, symbol.instances@.len()) is None <==> records_fit(symbol),
{
    let records = symbol.instances@;
    lemma_records(path, symbol, records.len());
    if records_fit(symbol) {
        assert forall|i: int| 0 <= i < records.len() implies record_fault(path, symbol, i) is None by {
            assert(records[i].project is Some);
            if record_repeated(records, i) {
                let j = choose|j: int|
                    0 <= j < i && opt_text((#[trigger] records[j]).project) == opt_text(
                        records[i].project,
                    ) && opt_text(records[j].path) == opt_text(records[i].path);
                assert(records[j].path->0@ != records[i].path->0@);
            }
            if record_of_other_project(records, i) {
                let j = choose|j: int|
                    0 <= j < i && opt_text((#[trigger] records[j]).project) != opt_text(
                        records[i].project,
                    );
                assert(records[j].project->0@ == records[i].project->0@);
            }
        }
    }
    if records_fault(path, symbol, records.len()) is None {
        assert forall|i: int, j: int| 0 <= i < j < records.len() implies (
        #[trigger] records[i]).project->0@ == (#[trigger] records[j]).project->0@
            && records[i].path->0@ != records[j].path->0@ by {
            assert(record_fault(path, symbol, i) is None);
            assert(record_fault(path, symbol, j) is None);
            assert(!record_of_other_project(records, j));
            assert(!record_repeated(records, j));
        }
        assert forall|i: int| 0 <= i < records.len() implies (#[trigger] records[i]).project is Some
            && records[i].path is Some && opt_text(records[i].reference) is Some && records[i].unit
            == Some(symbol.unit) && opt_text(records[i].reference) == symbol.value_of(
            "Reference"@,
        ) by {
            assert(record_fault(path, symbol, i) is None);
        }
    }
}

proof fn lemma_records(path: Seq<char>, symbol: SheetSymbol, n: nat)
    ensures
        records_fault(path, symbol, n) is None <==> forall|i: int|
            0 <= i < n ==> #[trigger] record_fault(path, symbol, i) is None,
    decreases n,
{
    if n > 0 {
        lemma_records(path, symbol, (n - 1) as nat);
        if records_fault(path, symbol, n) is Some
            && records_fault(path, symbol, (n - 1) as nat) is None {
            assert(record_fault(path, symbol, n - 1) is Some);
        }
    }
}

/// A property has the value that its first entry gives it, and none if no
/// entry has the name.
pub proof fn law_a_property_is_the_first_of_its_name(symbol: SheetSymbol, name: Seq<char>)
    ensures
        symbol.value_of(name) is None <==> forall|i: int|
            0 <= i < symbol.properties@.len() ==> (#[trigger] symbol.properties@[i]).name@ != name,
        forall|i: int|
            0 <= i < symbol.properties@.len() && (#[trigger] symbol.properties@[i]).name@ == name && (
            forall|j: int| 0 <= j < i ==> (#[trigger] symbol.properties@[j]).name@ != name)
                ==> symbol.value_of(name) == Some(symbol.properties@[i].value@),
        symbol.value_or_empty(name) == (match symbol.value_of(name) {
            Some(value) => value,
            None => Seq::<char>::empty(),
        }),
{
    lemma_first_value(symbol.properties@, name, symbol.properties@.len());
}

proof fn lemma_first_value(properties: Seq<SymbolProperty>, name: Seq<char>, n: nat)
    requires
        n <= properties.len(),
    ensures
        property_value(properties, name, n) is None <==> forall|i: int|
            0 <= i < n ==> (#[trigger] properties[i]).name@ != name,
        forall|i: int|
            0 <= i < n && (#[trigger] properties[i]).name@ == name && (forall|j: int|
                0 <= j < i ==> (#[trigger] properties[j]).name@ != name) ==> property_value(
                properties,
                name,
                n,
            ) == Some(properties[i].value@),
    decreases n,
{
    if n > 0 {
        lemma_first_value(properties, name, (n - 1) as nat);
    }
}

/// No two properties of a symbol have the same name.
pub open spec fn names_differ(properties: Seq<SymbolProperty>) -> bool {
    forall|i: int, j: int|
        0 <= i < j < properties.len() ==> (#[trigger] properties[i]).name@ != (
        #[trigger] properties[j]).name@
}

/// The fields that are read are those of the properties, each with its value;
/// they are refused exactly if two of them have one name.
pub proof fn law_every_property_is_a_field(reference: Seq<char>, symbol: SheetSymbol)
    ensures
        fields_of(reference, symbol, symbol.properties@.len()) is Ok <==> names_differ(
            symbol.properties@,
        ),
        fields_of(reference, symbol, symbol.properties@.len()) matches Ok(fields) ==> (forall|
            i: int,
        |
            0 <= i < symbol.properties@.len() ==> fields.contains_key(
                (#[trigger] symbol.properties@[i]).name@,
            ) && fields[symbol.properties@[i].name@] == symbol.properties@[i].value@) && (forall|
            name: Seq<char>,
        | #[trigger]
            fields.contains_key(name) ==> exists|i: int|
                0 <= i < symbol.properties@.len() && (#[trigger] symbol.properties@[i]).name@
                    == name),
{
    lemma_fields(reference, symbol, symbol.properties@.len());
    assert(symbol.properties@.take(symbol.properties@.len() as int) =~= symbol.properties@);
}

proof fn lemma_fields(reference: Seq<char>, symbol: SheetSymbol, n: nat)
    requires
        n <= symbol.properties@.len(),
    ensures
        fields_of(reference, symbol, n) is Ok <==> names_differ(symbol.properties@.take(n as int)),
        fields_of(reference, symbol, n) matches Ok(fields) ==> (forall|i: int|
            0 <= i < n ==> fields.contains_key((#[trigger] symbol.properties@[i]).name@)
                && fields[symbol.properties@[i].name@] == symbol.properties@[i].value@) && (forall|
            name: Seq<char>,
        | #[trigger]
            fields.contains_key(name) ==> exists|i: int|
                0 <= i < n && (#[trigger] symbol.properties@[i]).name@ == name),
    decreases n,
{
    if n > 0 {
        let m = (n - 1) as nat;
        lemma_fields(reference, symbol, m);
        let (all, rest) = (symbol.properties@.take(n as int), symbol.properties@.take(m as int));
        let own = symbol.properties@[n - 1];
        assert(all[n - 1] == own);
        assert forall|i: int| 0 <= i < m implies #[trigger] rest[i] == all[i] && all[i]
            == symbol.properties@[i] by {}
        if names_differ(all) {
            assert forall|i: int, j: int| 0 <= i < j < rest.len() implies (
            #[trigger] rest[i]).name@ != (#[trigger] rest[j]).name@ by {
                assert(all[i].name@ != all[j].name@);
            }
        }
        if fields_of(reference, symbol, m) is Ok {
            let fields = fields_of(reference, symbol, m)->Ok_0;
            if fields.contains_key(own.name@) {
                let i = choose|i: int|
                    0 <= i < m && (#[trigger] symbol.properties@[i]).name@ == own.name@;
                assert(rest[i] == all[i]);
                assert(all[i].name@ == all[n - 1].name@);
            } else {
                assert forall|i: int, j: int| 0 <= i < j < all.len() implies (
                #[trigger] all[i]).name@ != (#[trigger] all[j]).name@ by {
                    assert(rest[i] == all[i]);
                    if j < n - 1 {
                        assert(rest[j] == all[j]);
                    } else {
                        assert(fields.contains_key(symbol.properties@[i].name@));
                    }
                }
                let more = fields.insert(own.name@, own.value@);
                assert forall|name: Seq<char>| #[trigger] more.contains_key(name) implies exists|
                    i: int,
                |
                    0 <= i < n && (#[trigger] symbol.properties@[i]).name@ == name by {
                    if name == own.name@ {
                        assert(symbol.properties@[n - 1].name@ == name);
                    } else {
                        assert(fields.contains_key(name));
                    }
                }
            }
        } else {
            assert(!names_differ(rest));
        }
    }
}

/// A field stands where the last entry of its name that says so puts it, at
/// rest where no angle is given, and it is hidden if that entry is.
pub proof fn law_a_field_stands_where_it_is_put(properties: Seq<SymbolProperty>)
    ensures
        forall|name: Seq<char>| #[trigger]
            placements_of(properties, properties.len()).contains_key(name) <==> exists|i: int|
                0 <= i < properties.len() && (#[trigger] properties[i]).name@ == name
                    && properties[i].at is Some,
        forall|i: int|
            0 <= i < properties.len() && (#[trigger] properties[i]).at is Some && (forall|j: int|
                i < j < properties.len() && (#[trigger] properties[j]).name@ == properties[i].name@
                    ==> properties[j].at is None) ==> {
                let seen = placements_of(properties, properties.len())[properties[i].name@];
                &&& seen.x == properties[i].at->0.x
                &&& seen.y == properties[i].at->0.y
                &&& properties[i].at->0.rotation matches Some(angle) ==> seen.rotation == angle
                &&& properties[i].at->0.rotation is None ==> seen.rotation == 0
                &&& seen.hide == is_hidden(nodes(properties[i].nodes@))
            },
{
    lemma_placements(properties, properties.len());
}

proof fn lemma_placements(properties: Seq<SymbolProperty>, n: nat)
    requires
        n <= properties.len(),
    ensures
        forall|name: Seq<char>| #[trigger]
            placements_of(properties, n).contains_key(name) <==> exists|i: int|
                0 <= i < n && (#[trigger] properties[i]).name@ == name && properties[i].at is Some,
        forall|i: int|
            0 <= i < n && (#[trigger] properties[i]).at is Some && (forall|j: int|
                i < j < n && (#[trigger] properties[j]).name@ == properties[i].name@
                    ==> properties[j].at is None) ==> {
                let seen = placements_of(properties, n)[properties[i].name@];
                &&& seen.x == properties[i].at->0.x
                &&& seen.y == properties[i].at->0.y
                &&& properties[i].at->0.rotation matches Some(angle) ==> seen.rotation == angle
                &&& properties[i].at->0.rotation is None ==> seen.rotation == 0
                &&& seen.hide == is_hidden(nodes(properties[i].nodes@))
            },
    decreases n,
{
    if n > 0 {
        let m = (n - 1) as nat;
        lemma_placements(properties, m);
        let (all, rest) = (placements_of(properties, n), placements_of(properties, m));
        assert forall|name: Seq<char>| #[trigger] all.contains_key(name) <==> exists|i: int|
            0 <= i < n && (#[trigger] properties[i]).name@ == name && properties[i].at is Some by {
            assert(rest.contains_key(name) <==> exists|i: int|
                0 <= i < m && (#[trigger] properties[i]).name@ == name && properties[i].at is Some);
            assert(properties[n - 1].name@ == properties[n - 1].name@);
        }
        assert forall|i: int|
            0 <= i < n && (#[trigger] properties[i]).at is Some && (forall|j: int|
                i < j < n && (#[trigger] properties[j]).name@ == properties[i].name@
                    ==> properties[j].at is None) implies {
            let seen = all[properties[i].name@];
            &&& seen.x == properties[i].at->0.x
            &&& seen.y == properties[i].at->0.y
            &&& properties[i].at->0.rotation matches Some(angle) ==> seen.rotation == angle
            &&& properties[i].at->0.rotation is None ==> seen.rotation == 0
            &&& seen.hide == is_hidden(nodes(properties[i].nodes@))
        } by {
            if i < n - 1 {
                assert(properties[n - 1].name@ == properties[i].name@ ==> properties[n - 1].at is None);
                assert(rest.contains_key(properties[i].name@));
            }
        }
    }
}

/// The units of a component come in the order of their numbers, those of one
/// number as they were, none lost and none added.
pub proof fn law_units_come_in_order(symbols: Seq<SheetSymbol>, at: Seq<int>)
    requires
        at.no_duplicates(),
    ensures
        by_unit(symbols, at).to_multiset() == at.to_multiset(),
        by_unit(symbols, at).len() == at.len(),
        forall|i: int, j: int|
            0 <= i < j < at.len() ==> goes_before(
                symbols,
                at,
                #[trigger] by_unit(symbols, at)[i],
                #[trigger] by_unit(symbols, at)[j],
            ),
    decreases at.len(),
{
    broadcast use vstd::seq_lib::group_to_multiset_ensures;

    if at.len() > 0 {
        let rest = at.drop_last();
        law_units_come_in_order(symbols, rest);
        let order = by_unit(symbols, rest);
        assert forall|x: int| rest.contains(x) implies #[trigger] at.index_of(x) == rest.index_of(x)
            && at.index_of(x) < rest.len() by {
            let p = rest.index_of(x);
            assert(rest[p] == x);
            assert(at[p] == x);
        }
        assert forall|i: int| 0 <= i < order.len() implies rest.contains(#[trigger] order[i]) by {
            assert(order.to_multiset().contains(order[i]));
        }
        assert forall|i: int, j: int| 0 <= i < j < order.len() implies goes_before(
            symbols,
            at,
            #[trigger] order[i],
            #[trigger] order[j],
        ) by {
            assert(goes_before(symbols, rest, order[i], order[j]));
        }
        assert(at[at.len() - 1] == at.last());
        lemma_put(symbols, at, order, at.last());
        assert(at =~= rest.push(at.last()));
    } else {
        assert(by_unit(symbols, at) =~= at);
    }
}

/// One symbol's unit has the lower number, or the same and it stands before.
pub open spec fn goes_before(symbols: Seq<SheetSymbol>, at: Seq<int>, a: int, b: int) -> bool {
    symbols[a].unit < symbols[b].unit || (symbols[a].unit == symbols[b].unit && at.index_of(a)
        < at.index_of(b))
}

proof fn lemma_put(symbols: Seq<SheetSymbol>, at: Seq<int>, order: Seq<int>, k: int)
    requires
        forall|i: int| 0 <= i < order.len() ==> at.index_of(#[trigger] order[i]) < at.index_of(k),
        forall|i: int, j: int|
            0 <= i < j < order.len() ==> goes_before(
                symbols,
                at,
                #[trigger] order[i],
                #[trigger] order[j],
            ),
    ensures
        placed_by_unit(symbols, order, k).to_multiset() == order.to_multiset().insert(k),
        placed_by_unit(symbols, order, k).len() == order.len() + 1,
        forall|i: int, j: int|
            0 <= i < j < order.len() + 1 ==> goes_before(
                symbols,
                at,
                #[trigger] placed_by_unit(symbols, order, k)[i],
                #[trigger] placed_by_unit(symbols, order, k)[j],
            ),
    decreases order.len(),
{
    broadcast use vstd::seq_lib::group_to_multiset_ensures;

    let res = placed_by_unit(symbols, order, k);
    if order.len() == 0 || symbols[order.last()].unit <= symbols[k].unit {
        assert forall|i: int, j: int| 0 <= i < j < res.len() implies goes_before(
            symbols,
            at,
            #[trigger] res[i],
            #[trigger] res[j],
        ) by {
            assert(res[i] == order[i]);
            if j == order.len() {
                assert(res[j] == k);
                if i < order.len() - 1 {
                    assert(goes_before(symbols, at, order[i], order[order.len() - 1]));
                }
            } else {
                assert(res[j] == order[j]);
            }
        }
    } else {
        let rest = order.drop_last();
        assert forall|i: int| 0 <= i < rest.len() implies at.index_of(#[trigger] rest[i])
            < at.index_of(k) by {
            assert(rest[i] == order[i]);
        }
        lemma_put(symbols, at, rest, k);
        let part = placed_by_unit(symbols, rest, k);
        assert(order =~= rest.push(order.last()));
        assert(res.to_multiset() =~= order.to_multiset().insert(k));
        assert forall|i: int, j: int| 0 <= i < j < res.len() implies goes_before(
            symbols,
            at,
            #[trigger] res[i],
            #[trigger] res[j],
        ) by {
            assert(res[i] == part[i]);
            if j < res.len() - 1 {
                assert(res[j] == part[j]);
            } else {
                assert(res[j] == order.last());
                assert(part.to_multiset().contains(part[i]));
                assert(rest.to_multiset().insert(k).contains(part[i]));
                if part[i] != k {
                    assert(rest.to_multiset().contains(part[i]));
                    let q = choose|q: int| 0 <= q < rest.len() && rest[q] == part[i];
                    assert(order[q] == rest[q]);
                    assert(goes_before(symbols, at, order[q], order[order.len() - 1]));
                }
            }
        }
    }
}

/// This identifier is that of the symbol at this position, and of no other.
pub open spec fn stands_alone(symbols: Seq<SheetSymbol>, uuid: Seq<char>, k: int) -> bool {
    &&& 0 <= k < symbols.len()
    &&& symbols[k].uuid@ == uuid
    &&& forall|j: int| 0 <= j < symbols.len() && (#[trigger] symbols[j]).uuid@ == uuid ==> j == k
}

/// One symbol, and only one, has this identifier.
pub open spec fn is_alone(symbols: Seq<SheetSymbol>, uuid: Seq<char>) -> bool {
    exists|k: int| stands_alone(symbols, uuid, k)
}

/// A symbol shows a unit of a component: it has the reference, its fields
/// differ in name, its records fit and every path of it names the reference.
pub open spec fn shows_unit(symbol: SheetSymbol, reference: Seq<char>) -> bool {
    &&& symbol.value_of("Reference"@) == Some(reference)
    &&& names_differ(symbol.properties@)
    &&& records_fit(symbol)
    &&& forall|i: int|
        0 <= i < symbol.path_references@.len() ==> opt_text(#[trigger] symbol.path_references@[i])
            == Some(reference)
}

/// What was read of a unit is what its symbol says.
pub open spec fn unit_as_shown(unit: UnitView, symbol: SheetSymbol) -> bool {
    &&& unit.uuid == symbol.uuid@
    &&& unit.unit == symbol.unit
    &&& unit.x == symbol.x
    &&& unit.y == symbol.y
    &&& symbol.rotation matches Some(angle) ==> unit.rotation == angle
    &&& symbol.rotation is None ==> unit.rotation == 0
    &&& unit.mirror_x <==> symbol.mirror is Some && symbol.mirror->0@.contains('x')
    &&& unit.mirror_y <==> symbol.mirror is Some && symbol.mirror->0@.contains('y')
    &&& unit.lib_id == symbol.lib_id@
    &&& forall|i: int|
        0 <= i < symbol.properties@.len() ==> unit.fields.contains_key(
            (#[trigger] symbol.properties@[i]).name@,
        ) && unit.fields[symbol.properties@[i].name@] == symbol.properties@[i].value@
    &&& forall|name: Seq<char>| #[trigger]
        unit.fields.contains_key(name) ==> exists|i: int|
            0 <= i < symbol.properties@.len() && (#[trigger] symbol.properties@[i]).name@ == name
    &&& unit.instance_paths == usage(symbol)
    &&& unit.field_placements == placements_of(symbol.properties@, symbol.properties@.len())
}

/// The component of this reference can be read: its identifiers are given once
/// each, each is that of one symbol of the file, and the symbols show units of
/// the component that are used in the same places.
pub open spec fn can_be_read(
    path: Seq<char>,
    same_document: bool,
    committed: ReadSchematic,
    given: Seq<Seq<char>>,
    reference: Seq<char>,
) -> bool {
    let items = indexed(path, committed.blocks@);
    let symbols = committed.symbols@;
    &&& same_document
    &&& given.len() > 0
    &&& given.no_duplicates()
    &&& items is Ok
    &&& forall|i: int|
        0 <= i < given.len() ==> is_symbol(items->Ok_0, #[trigger] given[i]) && is_alone(
            symbols,
            given[i],
        )
    &&& forall|k: int|
        0 <= k < symbols.len() && given.contains((#[trigger] symbols[k]).uuid@) ==> shows_unit(
            symbols[k],
            reference,
        )
    &&& forall|k: int, m: int|
        0 <= k < symbols.len() && 0 <= m < symbols.len() && given.contains(
            (#[trigger] symbols[k]).uuid@,
        ) && given.contains((#[trigger] symbols[m]).uuid@) ==> usage(symbols[k]) == usage(
            symbols[m],
        )
}

/// A component is read back exactly if it can be read and is the one that was
/// expected, and there is one unit for each identifier, as its symbol says.
#[verifier::spinoff_prover]
pub proof fn law_every_bound_unit_is_read_back(
    path: Seq<char>,
    same_document: bool,
    committed: ReadSchematic,
    given: Seq<Seq<char>>,
    expected: Option<Seq<char>>,
)
    ensures
        readback(path, same_document, committed, given, expected) is Ok <==> exists|
            reference: Seq<char>,
        | #[trigger]
            can_be_read(path, same_document, committed, given, reference) && (expected is Some
                ==> expected->0 == reference),
        readback(path, same_document, committed, given, expected) matches Ok(seen) ==> {
            &&& can_be_read(path, same_document, committed, given, seen.reference)
            &&& seen.schematic == committed.filepath@
            &&& seen.units.len() == given.len()
            &&& forall|i: int|
                0 <= i < seen.units.len() ==> given.contains((#[trigger] seen.units[i]).uuid)
            &&& forall|u: int|
                0 <= u < given.len() ==> exists|i: int|
                    0 <= i < seen.units.len() && (#[trigger] seen.units[i]).uuid
                        == #[trigger] given[u]
            &&& forall|i: int, k: int|
                0 <= i < seen.units.len() && 0 <= k < committed.symbols@.len() && (
                #[trigger] committed.symbols@[k]).uuid@ == (#[trigger] seen.units[i]).uuid
                    ==> unit_as_shown(seen.units[i], committed.symbols@[k])
            &&& forall|i: int, j: int|
                0 <= i < j < seen.units.len() ==> (#[trigger] seen.units[i]).unit <= (
                #[trigger] seen.units[j]).unit
            &&& forall|k: int|
                0 <= k < committed.symbols@.len() && (#[trigger] committed.symbols@[k]).uuid@
                    == seen.units[0].uuid ==> seen.value == committed.symbols@[k].value_or_empty(
                    "Value"@,
                ) && seen.footprint == committed.symbols@[k].value_or_empty("Footprint"@)
                    && seen.datasheet == committed.symbols@[k].value_or_empty("Datasheet"@)
        },
{
    let symbols = committed.symbols@;
    let uuids = ordered_list_of(given.to_set());
    let items = indexed(path, committed.blocks@);
    lemma_can_be_ordered(Seq::empty(), given, given.to_set());
    lemma_distinct(given, uuids);
    lemma_unbound(uuids, items->Ok_0);
    lemma_found(path, symbols, uuids);
    let found = find_observed(path, symbols, uuids);
    if given.no_duplicates() {
        assert forall|i: int| 0 <= i < given.len() implies uuids.contains(#[trigger] given[i]) by {
            assert(given.to_set().contains(given[i]));
        }
        assert forall|i: int| 0 <= i < uuids.len() implies given.contains(#[trigger] uuids[i]) by {
            assert(given.to_set().contains(uuids[i]));
        }
        if found is Ok && given.len() > 0 {
            let at = found->Ok_0;
            let order = by_unit(symbols, at);
            lemma_covers(symbols, given, uuids, at);
            lemma_one_reference(symbols, at);
            assert forall|reference: Seq<char>| #[trigger]
                can_be_read(path, same_document, committed, given, reference) implies seq![
                reference,
            ] == ordered_list_of(observed_references(symbols, at)) && !some_unreferenced(
                symbols,
                at,
            ) && observe_units(path, reference, symbols, order, order.len()) is Ok by {
                lemma_read_when_fit(path, same_document, committed, given, at, reference);
            }
            if readback(path, same_document, committed, given, expected) is Ok {
                let reference = ordered_list_of(observed_references(symbols, at))[0];
                lemma_fit_when_read(path, committed, given, uuids, at, reference);
                let seen = readback(path, same_document, committed, given, expected)->Ok_0;
                assert(can_be_read(path, same_document, committed, given, reference));
                lemma_observed(path, reference, symbols, order, order.len());
                let units = seen.units;
                assert forall|i: int| 0 <= i < units.len() implies given.contains(
                    (#[trigger] units[i]).uuid,
                ) by {
                    assert(unit_as_shown(units[i], symbols[order[i]]));
                }
                assert forall|u: int| 0 <= u < given.len() implies exists|i: int|
                    0 <= i < units.len() && (#[trigger] units[i]).uuid == #[trigger] given[u] by {
                    let k = choose|k: int| stands_alone(symbols, given[u], k);
                    assert(is_alone(symbols, given[u]));
                    assert(order.contains(k));
                    let i = order.index_of(k);
                    assert(unit_as_shown(units[i], symbols[order[i]]));
                }
                assert forall|i: int, k: int|
                    0 <= i < units.len() && 0 <= k < symbols.len() && (#[trigger] symbols[k]).uuid@
                        == (#[trigger] units[i]).uuid implies unit_as_shown(units[i], symbols[k])
                    && k == order[i] by {
                    assert(unit_as_shown(units[i], symbols[order[i]]));
                    let u = given.index_of(units[i].uuid);
                    assert(is_alone(symbols, given[u]));
                }
                assert forall|i: int, j: int| 0 <= i < j < units.len() implies (
                #[trigger] units[i]).unit <= (#[trigger] units[j]).unit by {
                    assert(unit_as_shown(units[i], symbols[order[i]]));
                    assert(unit_as_shown(units[j], symbols[order[j]]));
                }
                assert(units[0].uuid == units[0].uuid);
            }
        }
    }
    if exists|reference: Seq<char>| #[trigger]
        can_be_read(path, same_document, committed, given, reference) && (expected is Some
            ==> expected->0 == reference) {
        assert forall|i: int| 0 <= i < uuids.len() implies is_symbol(
            items->Ok_0,
            #[trigger] uuids[i],
        ) && is_alone(symbols, uuids[i]) by {
            let u = given.index_of(uuids[i]);
            assert(given[u] == uuids[i]);
        }
    }
}

/// A list names each text once exactly if it is as long as its texts in order.
proof fn lemma_distinct(given: Seq<Seq<char>>, uuids: Seq<Seq<char>>)
    requires
        strictly_ordered(uuids),
        forall|x: Seq<char>| #[trigger] uuids.contains(x) <==> given.to_set().contains(x),
    ensures
        given.no_duplicates() <==> uuids.len() == given.len(),
        uuids.no_duplicates(),
{
    assert forall|i: int, j: int| 0 <= i < j < uuids.len() implies uuids[i] != uuids[j] by {
        lemma_text_before_irreflexive(uuids[i]);
    }
    assert(uuids.to_set() =~= given.to_set()) by {
        assert forall|x: Seq<char>| uuids.to_set().contains(x) <==> given.to_set().contains(x) by {
            assert(uuids.contains(x) <==> given.to_set().contains(x));
        }
    }
    uuids.unique_seq_to_set();
    if given.no_duplicates() {
        given.unique_seq_to_set();
    } else {
        vstd::seq_lib::seq_to_set_is_finite(given);
        given.lemma_cardinality_of_set();
        if given.to_set().len() == given.len() {
            given.lemma_no_dup_set_cardinality();
        }
    }
}

proof fn lemma_unbound(uuids: Seq<Seq<char>>, items: Map<Seq<char>, crate::deletion::ItemView>)
    ensures
        first_unbound(uuids, items) is None <==> forall|i: int|
            0 <= i < uuids.len() ==> is_symbol(items, #[trigger] uuids[i]),
    decreases uuids.len(),
{
    if uuids.len() > 0 {
        let rest = uuids.drop_last();
        lemma_unbound(rest, items);
        assert(forall|i: int| 0 <= i < rest.len() ==> #[trigger] rest[i] == uuids[i]);
        assert(uuids[uuids.len() - 1] == uuids.last());
        if first_unbound(rest, items) is Some {
            let i = choose|i: int| 0 <= i < rest.len() && !is_symbol(items, #[trigger] rest[i]);
            assert(!is_symbol(items, uuids[i]));
        } else if first_unbound(uuids, items) is None {
            assert forall|i: int| 0 <= i < uuids.len() implies is_symbol(
                items,
                #[trigger] uuids[i],
            ) by {
                if i < rest.len() {
                    assert(is_symbol(items, rest[i]));
                }
            }
        }
    }
}

proof fn lemma_with_uuid(symbols: Seq<SheetSymbol>, uuid: Seq<char>)
    ensures
        is_alone(symbols, uuid) <==> with_uuid(symbols, uuid).len() == 1,
        with_uuid(symbols, uuid).len() == 1 ==> stands_alone(
            symbols,
            uuid,
            with_uuid(symbols, uuid)[0],
        ),
{
    let holds = |i: int| symbols[i].uuid@ == uuid;
    let found = positions_where(holds, symbols.len());
    lemma_positions(holds, symbols.len());
    assert forall|f: spec_fn(int) -> bool|
        (forall|i: int| 0 <= i < symbols.len() ==> #[trigger] f(i) == (symbols[i].uuid@ == uuid))
            implies #[trigger] positions_where(f, symbols.len()) == found by {
        lemma_same_positions(f, holds, symbols.len());
    }
    assert(found == with_uuid(symbols, uuid));
    if found.len() == 1 {
        assert(holds(found[0]));
        assert forall|j: int| 0 <= j < symbols.len() && (#[trigger] symbols[j]).uuid@ == uuid implies j
            == found[0] by {
            assert(holds(j));
            assert(found.contains(j));
        }
        assert(stands_alone(symbols, uuid, found[0]));
    } else if is_alone(symbols, uuid) {
        let k = choose|k: int| stands_alone(symbols, uuid, k);
        assert(holds(k));
        assert(found.contains(k));
        assert(holds(found[0]) && holds(found[1]));
        assert(symbols[found[0]].uuid@ == uuid);
        assert(symbols[found[1]].uuid@ == uuid);
        assert(found[0] < found[1]);
    }
}

proof fn lemma_found(path: Seq<char>, symbols: Seq<SheetSymbol>, uuids: Seq<Seq<char>>)
    ensures
        find_observed(path, symbols, uuids) is Ok <==> forall|i: int|
            0 <= i < uuids.len() ==> is_alone(symbols, #[trigger] uuids[i]),
        find_observed(path, symbols, uuids) matches Ok(at) ==> at.len() == uuids.len() && forall|
            i: int,
        |
            0 <= i < uuids.len() ==> stands_alone(symbols, uuids[i], #[trigger] at[i]),
    decreases uuids.len(),
{
    if uuids.len() > 0 {
        let rest = uuids.drop_last();
        let uuid = uuids.last();
        lemma_found(path, symbols, rest);
        assert(forall|i: int| 0 <= i < rest.len() ==> #[trigger] rest[i] == uuids[i]);
        assert(uuids[uuids.len() - 1] == uuid);
        let found = with_uuid(symbols, uuid);
        lemma_with_uuid(symbols, uuid);
        assert(is_alone(symbols, uuid) <==> found.len() == 1);
        if find_observed(path, symbols, rest) is Err {
            let i = choose|i: int| 0 <= i < rest.len() && !is_alone(symbols, #[trigger] rest[i]);
            assert(!is_alone(symbols, uuids[i]));
        } else if found.len() != 1 {
            assert(!is_alone(symbols, uuids[uuids.len() - 1]));
        } else {
            let at = find_observed(path, symbols, rest)->Ok_0;
            let all = at.push(found[0]);
            assert forall|i: int| 0 <= i < uuids.len() implies stands_alone(
                symbols,
                uuids[i],
                #[trigger] all[i],
            ) by {
                if i < rest.len() {
                    assert(all[i] == at[i]);
                    assert(rest[i] == uuids[i]);
                }
            }
            assert forall|i: int| 0 <= i < uuids.len() implies is_alone(
                symbols,
                #[trigger] uuids[i],
            ) by {
                assert(stands_alone(symbols, uuids[i], all[i]));
            }
        }
    }
}

/// The texts that are there among these.
spec fn somes(list: Seq<Option<Seq<char>>>) -> Seq<Seq<char>>
    decreases list.len(),
{
    if list.len() == 0 {
        Seq::empty()
    } else {
        match list.last() {
            Some(text) => somes(list.drop_last()).push(text),
            None => somes(list.drop_last()),
        }
    }
}

proof fn lemma_somes(list: Seq<Option<Seq<char>>>, x: Seq<char>)
    ensures
        somes(list).contains(x) <==> list.contains(Some(x)),
    decreases list.len(),
{
    if list.len() > 0 {
        let rest = list.drop_last();
        lemma_somes(rest, x);
        assert(list[list.len() - 1] == list.last());
        if rest.contains(Some(x)) {
            assert(list[rest.index_of(Some(x))] == Some(x));
        }
        if list.contains(Some(x)) {
            let i = list.index_of(Some(x));
            if i < rest.len() {
                assert(rest[i] == Some(x));
            }
        }
        if list.last() is Some {
            let (all, part) = (somes(list), somes(rest));
            assert(all[part.len() as int] == list.last()->0);
            if part.contains(x) {
                assert(all[part.index_of(x)] == x);
            }
            if all.contains(x) && x != list.last()->0 {
                assert(part[all.index_of(x)] == x);
            }
        }
    }
}

/// The texts that are there among these can be put in order.
pub proof fn lemma_somes_ordered(list: Seq<Option<Seq<char>>>, members: Set<Seq<char>>)
    requires
        forall|x: Seq<char>| #[trigger] members.contains(x) <==> list.contains(Some(x)),
    ensures
        strictly_ordered(ordered_list_of(members)),
        forall|x: Seq<char>| #[trigger]
            ordered_list_of(members).contains(x) <==> members.contains(x),
{
    assert forall|x: Seq<char>| members.contains(x) <==> somes(list).contains(x) by {
        lemma_somes(list, x);
    }
    lemma_can_be_ordered(Seq::empty(), somes(list), members);
}

proof fn lemma_no_other(list: Seq<Seq<char>>, text: Seq<char>)
    ensures
        first_other(list, text) is None <==> forall|x: Seq<char>| #[trigger]
            list.contains(x) ==> x == text,
    decreases list.len(),
{
    if list.len() > 0 {
        let rest = list.drop_last();
        lemma_no_other(rest, text);
        assert(list.contains(list[list.len() - 1]));
        assert forall|x: Seq<char>| #[trigger] list.contains(x) <==> rest.contains(x) || x
            == list.last() by {
            if list.contains(x) {
                let i = list.index_of(x);
                if i < rest.len() {
                    assert(rest[i] == x);
                }
            }
            if rest.contains(x) {
                assert(list[rest.index_of(x)] == x);
            }
        }
        if first_other(rest, text) is Some {
            let x = choose|x: Seq<char>| #[trigger] rest.contains(x) && x != text;
            assert(list.contains(x));
        }
    }
}

/// Every path of the symbol names this reference.
pub open spec fn paths_name(symbol: SheetSymbol, reference: Seq<char>) -> bool {
    forall|i: int|
        0 <= i < symbol.path_references@.len() ==> opt_text(#[trigger] symbol.path_references@[i])
            == Some(reference)
}

proof fn lemma_paths_name(symbol: SheetSymbol, reference: Seq<char>)
    ensures
        !some_path_unnamed(symbol.path_references@) && first_other(
            ordered_list_of(named_references(symbol.path_references@)),
            reference,
        ) is None <==> paths_name(symbol, reference),
{
    let list = symbol.path_references@;
    let shown = Seq::new(list.len(), |i: int| opt_text(list[i]));
    let members = named_references(list);
    assert forall|x: Seq<char>| #[trigger] members.contains(x) <==> shown.contains(Some(x)) by {
        if members.contains(x) {
            let i = choose|i: int| 0 <= i < list.len() && opt_text(#[trigger] list[i]) == Some(x);
            assert(shown[i] == Some(x));
        }
        if shown.contains(Some(x)) {
            let i = shown.index_of(Some(x));
            assert(opt_text(list[i]) == Some(x));
        }
    }
    lemma_somes_ordered(shown, members);
    lemma_no_other(ordered_list_of(members), reference);
    if !some_path_unnamed(list) && first_other(ordered_list_of(members), reference) is None {
        assert forall|i: int| 0 <= i < list.len() implies opt_text(#[trigger] list[i]) == Some(
            reference,
        ) by {
            assert(list[i] is Some);
            assert(members.contains(list[i]->0@));
        }
    }
    if paths_name(symbol, reference) {
        assert forall|x: Seq<char>| #[trigger] ordered_list_of(members).contains(x) implies x
            == reference by {
            assert(members.contains(x));
        }
        assert forall|i: int| 0 <= i < list.len() implies !(#[trigger] list[i] is None) by {
            assert(opt_text(list[i]) == Some(reference));
        }
    }
}

proof fn lemma_one_reference(symbols: Seq<SheetSymbol>, at: Seq<int>)
    requires
        at.len() > 0,
    ensures
        ({
            let references = ordered_list_of(observed_references(symbols, at));
            &&& !some_unreferenced(symbols, at) && references.len() == 1 ==> forall|i: int|
                0 <= i < at.len() ==> (#[trigger] symbols[at[i]]).value_of("Reference"@) == Some(
                    references[0],
                )
            &&& forall|reference: Seq<char>|
                (forall|i: int|
                    0 <= i < at.len() ==> (#[trigger] symbols[at[i]]).value_of("Reference"@)
                        == Some(reference)) ==> !some_unreferenced(symbols, at)
                    && #[trigger] seq![reference] == references
        }),
{
    let shown = Seq::new(at.len(), |i: int| symbols[at[i]].value_of("Reference"@));
    let members = observed_references(symbols, at);
    let references = ordered_list_of(members);
    assert forall|x: Seq<char>| #[trigger] members.contains(x) <==> shown.contains(Some(x)) by {
        if members.contains(x) {
            let i = choose|i: int|
                0 <= i < at.len() && #[trigger] symbols[at[i]].value_of("Reference"@) == Some(x);
            assert(shown[i] == Some(x));
        }
        if shown.contains(Some(x)) {
            let i = shown.index_of(Some(x));
            assert(symbols[at[i]].value_of("Reference"@) == Some(x));
        }
    }
    lemma_somes_ordered(shown, members);
    if !some_unreferenced(symbols, at) && references.len() == 1 {
        assert forall|i: int| 0 <= i < at.len() implies (#[trigger] symbols[at[i]]).value_of(
            "Reference"@,
        ) == Some(references[0]) by {
            let own = symbols[at[i]].value_of("Reference"@);
            assert(own is Some);
            assert(members.contains(own->0));
            assert(references.contains(own->0));
        }
    }
    assert forall|reference: Seq<char>|
        (forall|i: int|
            0 <= i < at.len() ==> (#[trigger] symbols[at[i]]).value_of("Reference"@) == Some(
                reference,
            )) implies !some_unreferenced(symbols, at) && #[trigger] seq![reference]
        == references by {
        assert(symbols[at[0]].value_of("Reference"@) == Some(reference));
        assert(members.contains(reference));
        assert forall|x: Seq<char>| seq![reference].contains(x) <==> members.contains(x) by {
            assert(seq![reference][0] == reference);
        }
        lemma_ordered_list(seq![reference], members);
    }
}

/// What one symbol of an order shows, given where the one before it is used.
pub open spec fn previous_of(symbols: Seq<SheetSymbol>, order: Seq<int>, i: int) -> Option<
    Seq<crate::symbol::PathView>,
> {
    if i == 0 {
        None
    } else {
        Some(usage(symbols[order[i - 1]]))
    }
}

/// A symbol of an order shows a unit, and is used where the one before it is.
spec fn fits(symbols: Seq<SheetSymbol>, order: Seq<int>, reference: Seq<char>, i: int) -> bool {
    &&& names_differ(symbols[order[i]].properties@)
    &&& records_fit(symbols[order[i]])
    &&& paths_name(symbols[order[i]], reference)
    &&& i > 0 ==> usage(symbols[order[i - 1]]) == usage(symbols[order[i]])
}

proof fn lemma_observed(
    path: Seq<char>,
    reference: Seq<char>,
    symbols: Seq<SheetSymbol>,
    order: Seq<int>,
    n: nat,
)
    requires
        n <= order.len(),
    ensures
        observe_units(path, reference, symbols, order, n) is Ok <==> forall|i: int|
            0 <= i < n ==> #[trigger] fits(symbols, order, reference, i),
        observe_units(path, reference, symbols, order, n) matches Ok(list) ==> list.len() == n
            && forall|i: int|
            0 <= i < n ==> unit_as_shown(#[trigger] list[i], symbols[order[i]]),
    decreases n,
{
    if n > 0 {
        lemma_observed(path, reference, symbols, order, (n - 1) as nat);
        let symbol = symbols[order[n - 1]];
        law_every_property_is_a_field(reference, symbol);
        law_records_are_accepted_when_they_fit(path, symbol);
        lemma_paths_name(symbol, reference);
        let previous = previous_of(symbols, order, n - 1);
        let own = observe_unit(path, reference, symbols, order, previous, symbol);
        assert(own is Ok <==> fits(symbols, order, reference, n - 1));
    }
}

proof fn lemma_used_alike(symbols: Seq<SheetSymbol>, order: Seq<int>, i: int)
    requires
        0 <= i < order.len(),
        forall|j: int|
            0 < j < order.len() ==> usage(symbols[order[j - 1]]) == usage(
                #[trigger] symbols[order[j]],
            ),
    ensures
        usage(symbols[order[i]]) == usage(symbols[order[0]]),
    decreases i,
{
    if i > 0 {
        lemma_used_alike(symbols, order, i - 1);
        assert(usage(symbols[order[i - 1]]) == usage(symbols[order[i]]));
    }
}

/// The symbols of an order are those of the identifiers.
spec fn covers(
    symbols: Seq<SheetSymbol>,
    given: Seq<Seq<char>>,
    order: Seq<int>,
) -> bool {
    &&& order.len() == given.len()
    &&& forall|i: int|
        0 <= i < order.len() ==> 0 <= #[trigger] order[i] < symbols.len() && given.contains(
            symbols[order[i]].uuid@,
        )
    &&& forall|k: int|
        0 <= k < symbols.len() && given.contains((#[trigger] symbols[k]).uuid@) ==> order.contains(k)
}

proof fn lemma_covers(
    symbols: Seq<SheetSymbol>,
    given: Seq<Seq<char>>,
    uuids: Seq<Seq<char>>,
    at: Seq<int>,
)
    requires
        uuids.no_duplicates(),
        uuids.len() == given.len(),
        forall|i: int| 0 <= i < given.len() ==> uuids.contains(#[trigger] given[i]),
        forall|i: int| 0 <= i < uuids.len() ==> given.contains(#[trigger] uuids[i]),
        at.len() == uuids.len(),
        forall|i: int| 0 <= i < uuids.len() ==> stands_alone(symbols, uuids[i], #[trigger] at[i]),
    ensures
        at.no_duplicates(),
        covers(symbols, given, at),
        covers(symbols, given, by_unit(symbols, at)),
        forall|i: int, j: int|
            0 <= i < j < at.len() ==> symbols[#[trigger] by_unit(symbols, at)[i]].unit
                <= symbols[#[trigger] by_unit(symbols, at)[j]].unit,
        forall|k: int| #[trigger] at.contains(k) <==> by_unit(symbols, at).contains(k),
{
    broadcast use vstd::seq_lib::group_to_multiset_ensures;

    assert forall|i: int, j: int| 0 <= i < j < at.len() implies at[i] != at[j] by {
        assert(stands_alone(symbols, uuids[i], at[i]));
        assert(stands_alone(symbols, uuids[j], at[j]));
        assert(uuids[i] != uuids[j]);
    }
    assert forall|i: int| 0 <= i < at.len() implies 0 <= #[trigger] at[i] < symbols.len()
        && given.contains(symbols[at[i]].uuid@) by {
        assert(stands_alone(symbols, uuids[i], at[i]));
        assert(given.contains(uuids[i]));
    }
    assert forall|k: int|
        0 <= k < symbols.len() && given.contains(
            (#[trigger] symbols[k]).uuid@,
        ) implies at.contains(k) by {
        let u = given.index_of(symbols[k].uuid@);
        assert(uuids.contains(given[u]));
        let i = uuids.index_of(given[u]);
        assert(stands_alone(symbols, uuids[i], at[i]));
        assert(at[i] == k);
    }
    law_units_come_in_order(symbols, at);
    let order = by_unit(symbols, at);
    assert forall|k: int| #[trigger] at.contains(k) <==> order.contains(k) by {
        assert(at.to_multiset().contains(k) <==> order.to_multiset().contains(k));
    }
    assert forall|i: int, j: int| 0 <= i < j < at.len() implies symbols[
        #[trigger] order[i]].unit <= symbols[#[trigger] order[j]].unit by {
        assert(goes_before(symbols, at, order[i], order[j]));
    }
    assert forall|i: int| 0 <= i < order.len() implies 0 <= #[trigger] order[i] < symbols.len()
        && given.contains(symbols[order[i]].uuid@) by {
        assert(order.contains(order[i]));
        assert(at.contains(order[i]));
        let q = at.index_of(order[i]);
        assert(at[q] == order[i]);
    }
}

proof fn lemma_read_when_fit(
    path: Seq<char>,
    same_document: bool,
    committed: ReadSchematic,
    given: Seq<Seq<char>>,
    at: Seq<int>,
    reference: Seq<char>,
)
    requires
        can_be_read(path, same_document, committed, given, reference),
        covers(committed.symbols@, given, at),
        covers(committed.symbols@, given, by_unit(committed.symbols@, at)),
    ensures
        ({
            let symbols = committed.symbols@;
            let order = by_unit(symbols, at);
            &&& seq![reference] == ordered_list_of(observed_references(symbols, at))
            &&& !some_unreferenced(symbols, at)
            &&& observe_units(path, reference, symbols, order, order.len()) is Ok
        }),
{
    let symbols = committed.symbols@;
    let order = by_unit(symbols, at);
    lemma_one_reference(symbols, at);
    assert forall|i: int| 0 <= i < at.len() implies (#[trigger] symbols[at[i]]).value_of(
        "Reference"@,
    ) == Some(reference) by {
        assert(shows_unit(symbols[at[i]], reference));
    }
    assert(seq![reference] == ordered_list_of(observed_references(symbols, at)));
    lemma_observed(path, reference, symbols, order, order.len());
    assert forall|i: int| 0 <= i < order.len() implies #[trigger] fits(
        symbols,
        order,
        reference,
        i,
    ) by {
        assert(shows_unit(symbols[order[i]], reference));
        if i > 0 {
            assert(0 <= order[i - 1] < symbols.len());
            assert(usage(symbols[order[i - 1]]) == usage(symbols[order[i]]));
        }
    }
}

proof fn lemma_fit_when_read(
    path: Seq<char>,
    committed: ReadSchematic,
    given: Seq<Seq<char>>,
    uuids: Seq<Seq<char>>,
    at: Seq<int>,
    reference: Seq<char>,
)
    requires
        given.len() > 0,
        covers(committed.symbols@, given, at),
        covers(committed.symbols@, given, by_unit(committed.symbols@, at)),
        observe_units(
            path,
            reference,
            committed.symbols@,
            by_unit(committed.symbols@, at),
            by_unit(committed.symbols@, at).len(),
        ) is Ok,
        forall|i: int|
            0 <= i < at.len() ==> (#[trigger] committed.symbols@[at[i]]).value_of("Reference"@)
                == Some(reference),
    ensures
        forall|k: int|
            0 <= k < committed.symbols@.len() && given.contains(
                (#[trigger] committed.symbols@[k]).uuid@,
            ) ==> shows_unit(committed.symbols@[k], reference),
        forall|k: int, m: int|
            0 <= k < committed.symbols@.len() && 0 <= m < committed.symbols@.len()
                && given.contains((#[trigger] committed.symbols@[k]).uuid@) && given.contains(
                (#[trigger] committed.symbols@[m]).uuid@,
            ) ==> usage(committed.symbols@[k]) == usage(committed.symbols@[m]),
{
    let symbols = committed.symbols@;
    let order = by_unit(symbols, at);
    lemma_observed(path, reference, symbols, order, order.len());
    assert forall|j: int| 0 < j < order.len() implies usage(symbols[order[j - 1]]) == usage(
        #[trigger] symbols[order[j]],
    ) by {
        assert(fits(symbols, order, reference, j));
    }
    assert forall|k: int|
        0 <= k < symbols.len() && given.contains(
            (#[trigger] symbols[k]).uuid@,
        ) implies shows_unit(symbols[k], reference) && usage(symbols[k]) == usage(
        symbols[order[0]],
    ) by {
        assert(at.contains(k) && order.contains(k));
        let (a, i) = (at.index_of(k), order.index_of(k));
        assert(symbols[at[a]].value_of("Reference"@) == Some(reference));
        assert(fits(symbols, order, reference, i));
        lemma_used_alike(symbols, order, i);
    }
}

/// A symbol is used exactly where its records say, in the order of the paths.
#[verifier::spinoff_prover]
pub proof fn law_a_symbol_is_used_where_its_records_say(symbol: SheetSymbol)
    requires
        records_fit(symbol),
    ensures
        forall|project: Seq<char>, own: Seq<char>| #[trigger]
            usage(symbol).contains((project, own)) <==> exists|i: int|
                0 <= i < symbol.instances@.len() && (#[trigger] symbol.instances@[i]).project->0@
                    == project && symbol.instances@[i].path->0@ == own,
        strictly_ordered(usage(symbol).map_values(|place: (Seq<char>, Seq<char>)| place.1)),
{
    let records = symbol.instances@;
    if records.len() > 0 {
        let shown = Seq::new(records.len(), |i: int| opt_text(records[i].path));
        let members = record_paths(records);
        assert forall|x: Seq<char>| #[trigger] members.contains(x) <==> shown.contains(Some(x)) by {
            if members.contains(x) {
                let i = choose|i: int|
                    0 <= i < records.len() && opt_text((#[trigger] records[i]).path) == Some(x);
                assert(shown[i] == Some(x));
            }
            if shown.contains(Some(x)) {
                let i = shown.index_of(Some(x));
                assert(opt_text(records[i].path) == Some(x));
            }
        }
        lemma_somes_ordered(shown, members);
        let paths = ordered_list_of(members);
        let places = usage(symbol);
        assert(places.map_values(|place: (Seq<char>, Seq<char>)| place.1) =~= paths);
        assert forall|project: Seq<char>, own: Seq<char>| #[trigger]
            places.contains((project, own)) <==> exists|i: int|
                0 <= i < records.len() && (#[trigger] records[i]).project->0@ == project
                    && records[i].path->0@ == own by {
            if places.contains((project, own)) {
                let q = places.index_of((project, own));
                assert(paths[q] == own);
                assert(paths.contains(own));
                assert(members.contains(own));
                let i = choose|i: int|
                    0 <= i < records.len() && opt_text((#[trigger] records[i]).path) == Some(own);
                assert(records[0].project->0@ == project);
                if i > 0 {
                    assert(records[0].project->0@ == records[i].project->0@);
                }
            }
            if exists|i: int|
                0 <= i < records.len() && (#[trigger] records[i]).project->0@ == project
                    && records[i].path->0@ == own {
                let i = choose|i: int|
                    0 <= i < records.len() && (#[trigger] records[i]).project->0@ == project
                        && records[i].path->0@ == own;
                assert(opt_text(records[i].path) == Some(own));
                assert(members.contains(own));
                assert(paths.contains(own));
                let q = paths.index_of(own);
                if i > 0 {
                    assert(records[0].project->0@ == records[i].project->0@);
                }
                assert(places[q] == (project, own));
            }
        }
    }
}

/// A unit that was read back is what was intended.
pub open spec fn as_intended(unit: UnitView, target: ComponentTargetUnit) -> bool {
    &&& unit.unit == target.unit
    &&& unit.lib_id == target.lib_id@
    &&& unit.x == target.x
    &&& unit.y == target.y
    &&& unit.rotation == target.rotation
    &&& unit.mirror_x <==> target.mirror is Some && target.mirror->0@.contains('x')
    &&& unit.mirror_y <==> target.mirror is Some && target.mirror->0@.contains('y')
    &&& unit.instance_paths == path_views(target.instances@)
    &&& forall|k: int|
        0 <= k < target.fields.keys().len() ==> unit.fields.contains_key(
            #[trigger] target.fields.keys()[k],
        ) && unit.fields[target.fields.keys()[k]] == target.fields.values()[k]@
}

/// The first unit of an identifier stands here.
pub open spec fn first_stands_at(units: Seq<UnitView>, uuid: Seq<char>, k: int) -> bool {
    &&& 0 <= k < units.len()
    &&& units[k].uuid == uuid
    &&& forall|j: int| 0 <= j < k ==> (#[trigger] units[j]).uuid != uuid
}

/// One of the units has this identifier, and the first that has is what was
/// intended.
pub open spec fn is_confirmed(units: Seq<UnitView>, target: ComponentTargetUnit) -> bool {
    exists|k: int| #[trigger] first_stands_at(units, target.uuid@, k) && as_intended(units[k], target)
}

/// What was read back is accepted exactly if every unit that was intended is
/// there as it was intended.
pub proof fn law_units_are_accepted_when_as_intended(
    path: Seq<char>,
    units: Seq<UnitView>,
    targets: Seq<ComponentTargetUnit>,
)
    ensures
        units_fault(path, units, targets, targets.len()) is None <==> forall|i: int|
            0 <= i < targets.len() ==> is_confirmed(units, #[trigger] targets[i]),
{
    lemma_confirmed(path, units, targets, targets.len());
}

proof fn lemma_confirmed(
    path: Seq<char>,
    units: Seq<UnitView>,
    targets: Seq<ComponentTargetUnit>,
    n: nat,
)
    requires
        n <= targets.len(),
    ensures
        units_fault(path, units, targets, n) is None <==> forall|i: int|
            0 <= i < n ==> is_confirmed(units, #[trigger] targets[i]),
    decreases n,
{
    if n > 0 {
        lemma_confirmed(path, units, targets, (n - 1) as nat);
        let target = targets[n - 1];
        lemma_first_unit(units, target.uuid@, units.len());
        match find_unit(units, target.uuid@, units.len()) {
            None => {
                if is_confirmed(units, target) {
                    let k = choose|k: int| #[trigger]
                        first_stands_at(units, target.uuid@, k) && as_intended(units[k], target);
                    assert(units[k].uuid == target.uuid@);
                }
            },
            Some(unit) => {
                lemma_fields_as_intended(target, unit.fields, target.fields.keys().len());
                let k = choose|k: int| #[trigger]
                    first_stands_at(units, target.uuid@, k) && units[k] == unit;
                assert(first_stands_at(units, target.uuid@, k));
                assert(first_difference(target, unit) is None <==> as_intended(unit, target));
                if is_confirmed(units, target) {
                    let m = choose|m: int| #[trigger]
                        first_stands_at(units, target.uuid@, m) && as_intended(units[m], target);
                    assert(m == k);
                }
            },
        }
        assert(unit_fault(path, units, target) is None <==> is_confirmed(units, target));
    }
}

proof fn lemma_first_unit(units: Seq<UnitView>, uuid: Seq<char>, n: nat)
    requires
        n <= units.len(),
    ensures
        find_unit(units, uuid, n) is None <==> forall|i: int|
            0 <= i < n ==> (#[trigger] units[i]).uuid != uuid,
        find_unit(units, uuid, n) matches Some(unit) ==> exists|k: int| #[trigger]
            first_stands_at(units, uuid, k) && k < n && units[k] == unit,
    decreases n,
{
    if n > 0 {
        lemma_first_unit(units, uuid, (n - 1) as nat);
        if find_unit(units, uuid, (n - 1) as nat) is None && units[n - 1].uuid == uuid {
            assert(first_stands_at(units, uuid, n - 1));
        }
    }
}

proof fn lemma_fields_as_intended(
    target: ComponentTargetUnit,
    found: Map<Seq<char>, Seq<char>>,
    n: nat,
)
    requires
        n <= target.fields.keys().len(),
    ensures
        first_field_off(target, found, n) is None <==> forall|k: int|
            0 <= k < n ==> found.contains_key(#[trigger] target.fields.keys()[k])
                && found[target.fields.keys()[k]] == target.fields.values()[k]@,
    decreases n,
{
    if n > 0 {
        lemma_fields_as_intended(target, found, (n - 1) as nat);
    }
}

/// A field stands on a unit as it was asked to: what was not asked for does not
/// count.
pub open spec fn stands_as_asked(
    unit: UnitView,
    name: Seq<char>,
    asked: FieldPlacement,
) -> bool {
    &&& asked.x is Some || asked.y is Some || asked.rotation is Some || asked.hide is Some
        ==> unit.field_placements.contains_key(name)
    &&& asked.x matches Some(x) ==> unit.field_placements[name].x == x
    &&& asked.y matches Some(y) ==> unit.field_placements[name].y == y
    &&& asked.rotation matches Some(angle) ==> unit.field_placements[name].rotation == angle
    &&& asked.hide matches Some(hide) ==> unit.field_placements[name].hide == hide
}

/// The fields that were moved are accepted exactly if each stands as it was
/// asked to on every unit; where one unit was named, on those of its number.
pub proof fn law_fields_are_accepted_where_they_stand(
    path: Seq<char>,
    phase: Seq<char>,
    units: Seq<UnitView>,
    placements: Seq<(String, FieldPlacement)>,
    only: Option<u32>,
)
    ensures
        placements_fault(path, phase, units, placements, only, placements.len()) is None
            <==> forall|i: int, u: int|
            0 <= i < placements.len() && 0 <= u < units.len() && (only is Some ==> (
            #[trigger] units[u]).unit == only->0) ==> stands_as_asked(
                units[u],
                (#[trigger] placements[i]).0@,
                placements[i].1,
            ),
{
    lemma_moved(path, phase, units, placements, only, placements.len());
    if placements_fault(path, phase, units, placements, only, placements.len()) is Some {
        let i = choose|i: int|
            0 <= i < placements.len() && first_missed(
                path,
                phase,
                units,
                (#[trigger] placements[i]).0@,
                placements[i].1,
                only,
                units.len(),
            ) is Some;
        lemma_missed(path, phase, units, placements[i].0@, placements[i].1, only, units.len());
        let u = choose|u: int|
            0 <= u < units.len() && missed(
                #[trigger] units[u],
                placements[i].0@,
                placements[i].1,
                only,
            );
        assert(seen_on(units[u], placements[i].0@) is Some
            <==> units[u].field_placements.contains_key(placements[i].0@));
    } else {
        assert forall|i: int, u: int|
            0 <= i < placements.len() && 0 <= u < units.len() && (only is Some ==> (
            #[trigger] units[u]).unit == only->0) implies stands_as_asked(
            units[u],
            (#[trigger] placements[i]).0@,
            placements[i].1,
        ) by {
            lemma_missed(path, phase, units, placements[i].0@, placements[i].1, only, units.len());
            assert(!missed(units[u], placements[i].0@, placements[i].1, only));
            assert(seen_on(units[u], placements[i].0@) is Some
                <==> units[u].field_placements.contains_key(placements[i].0@));
        }
    }
}

proof fn lemma_missed(
    path: Seq<char>,
    phase: Seq<char>,
    units: Seq<UnitView>,
    name: Seq<char>,
    placement: FieldPlacement,
    only: Option<u32>,
    n: nat,
)
    requires
        n <= units.len(),
    ensures
        first_missed(path, phase, units, name, placement, only, n) is None <==> forall|u: int|
            0 <= u < n ==> !missed(#[trigger] units[u], name, placement, only),
    decreases n,
{
    if n > 0 {
        lemma_missed(path, phase, units, name, placement, only, (n - 1) as nat);
    }
}

proof fn lemma_moved(
    path: Seq<char>,
    phase: Seq<char>,
    units: Seq<UnitView>,
    placements: Seq<(String, FieldPlacement)>,
    only: Option<u32>,
    n: nat,
)
    requires
        n <= placements.len(),
    ensures
        placements_fault(path, phase, units, placements, only, n) is None <==> forall|i: int|
            0 <= i < n ==> first_missed(
                path,
                phase,
                units,
                (#[trigger] placements[i]).0@,
                placements[i].1,
                only,
                units.len(),
            ) is None,
    decreases n,
{
    if n > 0 {
        lemma_moved(path, phase, units, placements, only, (n - 1) as nat);
    }
}

/// Changes are confirmed exactly if each of them is: what was read back is the
/// component of its target, every unit of it is as intended and every field
/// that was to be moved stands as asked. There is one observation for each.
#[verifier::spinoff_prover]
pub proof fn law_every_intent_is_confirmed(
    path: Seq<char>,
    same_document: bool,
    schematic: ReadSchematic,
    intents: Seq<ComponentMutationIntent>,
    phase: Seq<char>,
)
    ensures
        intents_outcome(path, same_document, schematic, intents, phase, intents.len()) is Ok
            <==> forall|i: int|
            0 <= i < intents.len() ==> intent_outcome(
                path,
                same_document,
                schematic,
                #[trigger] intents[i],
                phase,
            ) is Ok,
        intents_outcome(path, same_document, schematic, intents, phase, intents.len()) matches Ok(
            list,
        ) ==> list.len() == intents.len() && forall|i: int|
            0 <= i < intents.len() ==> {
                let target = (#[trigger] intents[i]).target;
                let placements = intents[i].field_placements@;
                &&& list[i].reference == target.reference@
                &&& list[i].units.len() == target.units@.len()
                &&& forall|u: int|
                    0 <= u < target.units@.len() ==> is_confirmed(
                        list[i].units,
                        #[trigger] target.units@[u],
                    )
                &&& forall|p: int, u: int|
                    0 <= p < placements.len() && 0 <= u < list[i].units.len() && (
                    intents[i].placement_unit is Some ==> (#[trigger] list[i].units[u]).unit
                        == intents[i].placement_unit->0) ==> stands_as_asked(
                        list[i].units[u],
                        (#[trigger] placements[p]).0@,
                        placements[p].1,
                    )
            },
{
    lemma_outcomes(path, same_document, schematic, intents, phase, intents.len());
    let outcome = intents_outcome(path, same_document, schematic, intents, phase, intents.len());
    if outcome is Ok {
        let list = outcome->Ok_0;
        assert forall|i: int| 0 <= i < intents.len() implies {
            let target = (#[trigger] intents[i]).target;
            let placements = intents[i].field_placements@;
            &&& list[i].reference == target.reference@
            &&& list[i].units.len() == target.units@.len()
            &&& forall|u: int|
                0 <= u < target.units@.len() ==> is_confirmed(
                    list[i].units,
                    #[trigger] target.units@[u],
                )
            &&& forall|p: int, u: int|
                0 <= p < placements.len() && 0 <= u < list[i].units.len() && (
                intents[i].placement_unit is Some ==> (#[trigger] list[i].units[u]).unit
                    == intents[i].placement_unit->0) ==> stands_as_asked(
                    list[i].units[u],
                    (#[trigger] placements[p]).0@,
                    placements[p].1,
                )
        } by {
            let intent = intents[i];
            law_every_bound_unit_is_read_back(
                path,
                same_document,
                schematic,
                target_uuids(intent.target.units@),
                Some(intent.target.reference@),
            );
            law_units_are_accepted_when_as_intended(path, list[i].units, intent.target.units@);
            law_fields_are_accepted_where_they_stand(
                path,
                phase,
                list[i].units,
                intent.field_placements@,
                intent.placement_unit,
            );
        }
    }
}

proof fn lemma_outcomes(
    path: Seq<char>,
    same_document: bool,
    schematic: ReadSchematic,
    intents: Seq<ComponentMutationIntent>,
    phase: Seq<char>,
    n: nat,
)
    requires
        n <= intents.len(),
    ensures
        intents_outcome(path, same_document, schematic, intents, phase, n) is Ok <==> forall|i: int|
            0 <= i < n ==> intent_outcome(
                path,
                same_document,
                schematic,
                #[trigger] intents[i],
                phase,
            ) is Ok,
        intents_outcome(path, same_document, schematic, intents, phase, n) matches Ok(list)
            ==> list.len() == n && forall|i: int|
            0 <= i < n ==> Ok::<ComponentObservation, crate::tool_error::TargetFault>(list[i])
                == intent_outcome(path, same_document, schematic, #[trigger] intents[i], phase),
    decreases n,
{
    if n > 0 {
        lemma_outcomes(path, same_document, schematic, intents, phase, (n - 1) as nat);
    }
}

} // verus!
