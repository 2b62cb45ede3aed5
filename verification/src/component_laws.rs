//! What is told of placed components, their pins, their moves and their
//! replacements, from the symbols themselves.

use crate::geometry::COINCIDENT_TOLERANCE;
use crate::geometry_laws::close;
use crate::intent::ComponentTargetUnit;
use crate::listing::listed;
use crate::lists::{lemma_positions, lemma_same_positions, positions_where};
use crate::moves::{
    arrived, chosen_positions, is_region_plan, move_fault, moved_references, moved_symbols,
    moves_fault, only_moved, symbol_with, within_turn, MovedView, PlannedMove,
};
use crate::pin_locations::{
    first_unit_fault, is_anchor, located_pins, places_of, symbols_of, unit_fault, UnitPlace,
};
use crate::placement::{placed_text, placement_fields_map, sorted_texts, symbol_name};
use crate::replacement::{
    first_out_of_range, greatest, node_names, request_refusal, symbol_named, unit_refusal,
};
use crate::sexp::Sexp;
use crate::symbol::SheetSymbol;
use crate::text::{
    lemma_text_before_irreflexive, lemma_text_before_total, lemma_text_before_transitive,
    text_before,
};
use vstd::prelude::*;
use vstd::string::*;

verus! {

/// The definition of a placed unit is there and has a pin of this number.
pub open spec fn has_pin(place: UnitPlace, k: int) -> bool {
    place.definition is Some && 0 <= k < place.definition->0.pins@.len()
}

/// Exactly the pins of the placed units of a component are located, each once,
/// unit by unit.
#[verifier::spinoff_prover]
pub proof fn law_every_pin_of_a_component_is_located(
    places: Seq<UnitPlace>,
    reference: Seq<char>,
    n: nat,
)
    requires
        n <= places.len(),
    ensures
        forall|i: int, k: int| #[trigger]
            located_pins(places, reference, n).contains((i, k)) <==> 0 <= i < n
                && places[i].reference@ == reference && has_pin(places[i], k),
        forall|a: int, b: int|
            0 <= a < b < located_pins(places, reference, n).len() ==> {
                let (p, q) = (
                    #[trigger] located_pins(places, reference, n)[a],
                    #[trigger] located_pins(places, reference, n)[b],
                );
                p.0 < q.0 || (p.0 == q.0 && p.1 < q.1)
            },
    decreases n,
{
    if n > 0 {
        let rest = located_pins(places, reference, (n - 1) as nat);
        let all = located_pins(places, reference, n);
        let place = places[n - 1];
        law_every_pin_of_a_component_is_located(places, reference, (n - 1) as nat);
        let count = if place.reference@ == reference && place.definition is Some {
            place.definition->0.pins@.len()
        } else {
            0
        };
        assert(all.len() == rest.len() + count);
        assert forall|a: int| rest.len() <= a < all.len() implies #[trigger] all[a] == (
            n - 1,
            a - rest.len(),
        ) by {}
        assert forall|a: int| 0 <= a < rest.len() implies #[trigger] all[a] == rest[a] && all[a].0
            < n - 1 by {
            assert(rest.contains(rest[a]));
            assert(rest.contains((rest[a].0, rest[a].1)));
        }
        assert forall|i: int, k: int| #[trigger] all.contains((i, k)) <==> 0 <= i < n
            && places[i].reference@ == reference && has_pin(places[i], k) by {
            if all.contains((i, k)) {
                let a = all.index_of((i, k));
                if a < rest.len() {
                    assert(rest[a] == (i, k));
                    assert(rest.contains((i, k)));
                }
            }
            if 0 <= i < n && places[i].reference@ == reference && has_pin(places[i], k) {
                if i < n - 1 {
                    assert(rest.contains((i, k)));
                    assert(all[rest.index_of((i, k))] == (i, k));
                } else {
                    assert(all[rest.len() + k] == (i, k));
                }
            }
        }
    }
}

/// The pins of a unit can be told: its definition is embedded, and one that
/// derives from another has pins of its own.
pub open spec fn is_defined(place: UnitPlace) -> bool {
    &&& place.definition is Some
    &&& place.definition->0.extends is Some ==> place.definition->0.pins@.len() > 0
}

/// Pins are located exactly if every placed unit of the component is defined.
pub proof fn law_pins_are_located_when_every_unit_is_defined(
    places: Seq<UnitPlace>,
    reference: Seq<char>,
    n: nat,
)
    requires
        n <= places.len(),
    ensures
        first_unit_fault(places, reference, n) is None <==> forall|i: int|
            0 <= i < n && (#[trigger] places[i]).reference@ == reference ==> is_defined(places[i]),
    decreases n,
{
    if n > 0 {
        law_pins_are_located_when_every_unit_is_defined(places, reference, (n - 1) as nat);
        assert(unit_fault(places[n - 1]) is None <==> is_defined(places[n - 1]));
    }
}

/// The units of a component are those placed under its reference, and its
/// anchor is the first of those with the least number.
pub proof fn law_units_are_found_by_their_reference(
    places: Seq<UnitPlace>,
    reference: Seq<char>,
    anchor: int,
)
    ensures
        forall|i: int|
            0 <= i < places.len() ==> (places_of(places, reference, places.len()).contains(i)
                <==> (#[trigger] places[i]).reference@ == reference),
        is_anchor(|i: int| places[i].unit, places_of(places, reference, places.len()), anchor)
            <==> 0 <= anchor < places.len() && places[anchor].reference@ == reference && forall|
            i: int,
        |
            0 <= i < places.len() && (#[trigger] places[i]).reference@ == reference
                ==> places[anchor].unit < places[i].unit || (places[anchor].unit == places[i].unit
                && anchor <= i),
{
    let holds = |i: int| places[i].reference@ == reference;
    let found = positions_where(holds, places.len());
    lemma_positions(holds, places.len());
    assert forall|f: spec_fn(int) -> bool|
        (forall|i: int| 0 <= i < places.len() ==> #[trigger] f(i) == (places[i].reference@
            == reference)) implies #[trigger] positions_where(f, places.len()) == found by {
        lemma_same_positions(f, holds, places.len());
    }
    let at = places_of(places, reference, places.len());
    assert(at == found);
    assert forall|i: int| #[trigger] at.contains(i) <==> 0 <= i < places.len()
        && places[i].reference@ == reference by {
        if at.contains(i) {
            let k = at.index_of(i);
            assert(holds(found[k]));
        }
        if 0 <= i < places.len() && places[i].reference@ == reference {
            assert(holds(i));
        }
    }
    if 0 <= anchor < places.len() && places[anchor].reference@ == reference {
        assert(at.contains(anchor));
    }
    if is_anchor(|i: int| places[i].unit, at, anchor) {
        assert forall|i: int|
            0 <= i < places.len() && (#[trigger] places[i]).reference@
                == reference implies places[anchor].unit < places[i].unit || (
        places[anchor].unit == places[i].unit && anchor <= i) by {
            assert(at.contains(i));
        }
    }
}

/// The symbols of a component are those that carry its reference, and its
/// anchor is the first of those with the least number.
pub proof fn law_symbols_are_found_by_their_reference(
    symbols: Seq<SheetSymbol>,
    reference: Seq<char>,
    anchor: int,
)
    ensures
        forall|i: int|
            0 <= i < symbols.len() ==> (symbols_of(symbols, reference, symbols.len()).contains(i)
                <==> (#[trigger] symbols[i]).value_of("Reference"@) == Some(reference)),
        is_anchor(|i: int| symbols[i].unit, symbols_of(symbols, reference, symbols.len()), anchor)
            <==> 0 <= anchor < symbols.len() && symbols[anchor].value_of("Reference"@) == Some(
            reference,
        ) && forall|i: int|
            0 <= i < symbols.len() && (#[trigger] symbols[i]).value_of("Reference"@) == Some(
                reference,
            ) ==> symbols[anchor].unit < symbols[i].unit || (symbols[anchor].unit == symbols[i].unit
                && anchor <= i),
{
    let holds = |i: int| symbols[i].value_of("Reference"@) == Some(reference);
    let found = positions_where(holds, symbols.len());
    lemma_positions(holds, symbols.len());
    assert forall|f: spec_fn(int) -> bool|
        (forall|i: int|
            0 <= i < symbols.len() ==> #[trigger] f(i) == (symbols[i].value_of("Reference"@)
                == Some(reference))) implies #[trigger] positions_where(f, symbols.len())
        == found by {
        lemma_same_positions(f, holds, symbols.len());
    }
    let at = symbols_of(symbols, reference, symbols.len());
    assert(at == found);
    assert forall|i: int| #[trigger] at.contains(i) <==> 0 <= i < symbols.len()
        && symbols[i].value_of("Reference"@) == Some(reference) by {
        if at.contains(i) {
            let k = at.index_of(i);
            assert(holds(found[k]));
        }
        if 0 <= i < symbols.len() && symbols[i].value_of("Reference"@) == Some(reference) {
            assert(holds(i));
        }
    }
    if 0 <= anchor < symbols.len() && symbols[anchor].value_of("Reference"@) == Some(reference) {
        assert(at.contains(anchor));
    }
    if is_anchor(|i: int| symbols[i].unit, at, anchor) {
        assert forall|i: int|
            0 <= i < symbols.len() && (#[trigger] symbols[i]).value_of("Reference"@) == Some(
                reference,
            ) implies symbols[anchor].unit < symbols[i].unit || (symbols[anchor].unit
            == symbols[i].unit && anchor <= i) by {
            assert(at.contains(i));
        }
    }
}

/// The first symbol with this identifier stands at this position.
pub open spec fn first_with(symbols: Seq<SheetSymbol>, uuid: Seq<char>, k: int) -> bool {
    &&& 0 <= k < symbols.len()
    &&& symbols[k].uuid@ == uuid
    &&& forall|j: int| 0 <= j < k ==> (#[trigger] symbols[j]).uuid@ != uuid
}

/// A symbol that was to be moved is there, close to where it was to go.
pub open spec fn is_where_planned(symbols: Seq<SheetSymbol>, planned: PlannedMove) -> bool {
    exists|k: int| #[trigger]
        first_with(symbols, planned.uuid@, k) && close(
            symbols[k].x as int,
            symbols[k].y as int,
            planned.x as int,
            planned.y as int,
            COINCIDENT_TOLERANCE as int,
        )
}

/// A move is confirmed exactly if every symbol is where it was planned to be;
/// what is told of each is what its symbol then says.
pub proof fn law_a_move_is_confirmed_when_every_symbol_arrived(
    symbols: Seq<SheetSymbol>,
    moves: Seq<PlannedMove>,
)
    ensures
        moves_fault(symbols, moves, moves.len()) is None <==> forall|i: int|
            0 <= i < moves.len() ==> is_where_planned(symbols, #[trigger] moves[i]),
        moved_symbols(symbols, moves, moves.len()).len() == moves.len(),
        forall|i: int, k: int|
            0 <= i < moves.len() && #[trigger] first_with(
                symbols,
                (#[trigger] moves[i]).uuid@,
                k,
            ) ==> {
                let told = moved_symbols(symbols, moves, moves.len())[i];
                &&& symbols[k].value_of("Reference"@) matches Some(reference) ==> told.reference
                    == reference
                &&& symbols[k].value_of("Reference"@) is None ==> told.reference == "?"@
                &&& told.unit == symbols[k].unit
                &&& told.x == symbols[k].x
                &&& told.y == symbols[k].y
            },
{
    lemma_moves(symbols, moves, moves.len());
}

proof fn lemma_moves(symbols: Seq<SheetSymbol>, moves: Seq<PlannedMove>, n: nat)
    requires
        n <= moves.len(),
    ensures
        moves_fault(symbols, moves, n) is None <==> forall|i: int|
            0 <= i < n ==> is_where_planned(symbols, #[trigger] moves[i]),
        moved_symbols(symbols, moves, n).len() == n,
        forall|i: int, k: int|
            0 <= i < n && #[trigger] first_with(symbols, (#[trigger] moves[i]).uuid@, k) ==> {
                let told = moved_symbols(symbols, moves, n)[i];
                &&& symbols[k].value_of("Reference"@) matches Some(reference) ==> told.reference
                    == reference
                &&& symbols[k].value_of("Reference"@) is None ==> told.reference == "?"@
                &&& told.unit == symbols[k].unit
                &&& told.x == symbols[k].x
                &&& told.y == symbols[k].y
            },
    decreases n,
{
    if n > 0 {
        lemma_moves(symbols, moves, (n - 1) as nat);
        let planned = moves[n - 1];
        lemma_first_with(symbols, planned.uuid@, symbols.len());
        match symbol_with(symbols, planned.uuid@, symbols.len()) {
            None => {
                if is_where_planned(symbols, planned) {
                    let k = choose|k: int| #[trigger]
                        first_with(symbols, planned.uuid@, k) && close(
                            symbols[k].x as int,
                            symbols[k].y as int,
                            planned.x as int,
                            planned.y as int,
                            COINCIDENT_TOLERANCE as int,
                        );
                    assert(symbols[k].uuid@ == planned.uuid@);
                }
            },
            Some(symbol) => {
                let k = choose|k: int| #[trigger]
                    first_with(symbols, planned.uuid@, k) && symbols[k] == symbol;
                assert(arrived(symbol, planned) <==> close(
                    symbol.x as int,
                    symbol.y as int,
                    planned.x as int,
                    planned.y as int,
                    COINCIDENT_TOLERANCE as int,
                ));
                assert forall|m: int| #[trigger] first_with(symbols, planned.uuid@, m) implies m
                    == k by {}
            },
        }
        assert(move_fault(symbols, planned) is None <==> is_where_planned(symbols, planned));
        let (all, rest) = (
            moved_symbols(symbols, moves, n),
            moved_symbols(symbols, moves, (n - 1) as nat),
        );
        assert forall|i: int| 0 <= i < n - 1 implies #[trigger] all[i] == rest[i] by {}
    }
}

proof fn lemma_first_with(symbols: Seq<SheetSymbol>, uuid: Seq<char>, n: nat)
    requires
        n <= symbols.len(),
    ensures
        symbol_with(symbols, uuid, n) is None <==> forall|i: int|
            0 <= i < n ==> (#[trigger] symbols[i]).uuid@ != uuid,
        symbol_with(symbols, uuid, n) matches Some(symbol) ==> exists|k: int| #[trigger]
            first_with(symbols, uuid, k) && k < n && symbols[k] == symbol,
    decreases n,
{
    if n > 0 {
        lemma_first_with(symbols, uuid, (n - 1) as nat);
        if symbol_with(symbols, uuid, (n - 1) as nat) is None && symbols[n - 1].uuid@ == uuid {
            assert(first_with(symbols, uuid, n - 1));
        }
    }
}

/// The references that are told of moved symbols are theirs, each once.
pub proof fn law_every_moved_reference_is_told_once(list: Seq<MovedView>)
    ensures
        forall|x: Seq<char>| #[trigger]
            moved_references(list).contains(x) <==> exists|i: int|
                0 <= i < list.len() && (#[trigger] list[i]).reference == x,
        moved_references(list).no_duplicates(),
    decreases list.len(),
{
    if list.len() > 0 {
        let rest = list.drop_last();
        law_every_moved_reference_is_told_once(rest);
        let (all, part) = (moved_references(list), moved_references(rest));
        let own = list.last().reference;
        assert(list[list.len() - 1].reference == own);
        assert(forall|i: int| 0 <= i < rest.len() ==> #[trigger] rest[i] == list[i]);
        assert forall|x: Seq<char>| #[trigger] all.contains(x) <==> exists|i: int|
            0 <= i < list.len() && (#[trigger] list[i]).reference == x by {
            if part.contains(x) {
                let i = choose|i: int| 0 <= i < rest.len() && (#[trigger] rest[i]).reference == x;
                assert(list[i].reference == x);
                assert(all[part.index_of(x)] == x);
            }
            if all.contains(x) && x != own {
                assert(part[all.index_of(x)] == x);
            }
            if exists|i: int| 0 <= i < list.len() && (#[trigger] list[i]).reference == x {
                let i = choose|i: int| 0 <= i < list.len() && (#[trigger] list[i]).reference == x;
                if i < rest.len() {
                    assert(rest[i].reference == x);
                } else if !part.contains(own) {
                    assert(all[part.len() as int] == own);
                }
            }
        }
    }
}

/// The plan of a region moves exactly the chosen symbols, each to its place.
pub proof fn law_exactly_the_chosen_symbols_move(
    symbols: Seq<SheetSymbol>,
    chosen: Seq<Seq<char>>,
    places: Seq<(i64, i64)>,
    moves: Seq<PlannedMove>,
)
    requires
        is_region_plan(symbols, chosen, places, moves, symbols.len()),
    ensures
        forall|k: int|
            0 <= k < symbols.len() && chosen.contains((#[trigger] symbols[k]).uuid@) ==> exists|
                i: int,
            |
                0 <= i < moves.len() && goes_to(#[trigger] moves[i], symbols[k], places[k]),
        forall|i: int|
            0 <= i < moves.len() ==> takes_one(symbols, chosen, places, #[trigger] moves[i]),
{
    let holds = |i: int| chosen.contains(symbols[i].uuid@);
    let found = positions_where(holds, symbols.len());
    lemma_positions(holds, symbols.len());
    assert forall|f: spec_fn(int) -> bool|
        (forall|i: int|
            0 <= i < symbols.len() ==> #[trigger] f(i) == chosen.contains(symbols[i].uuid@))
            implies #[trigger] positions_where(f, symbols.len()) == found by {
        lemma_same_positions(f, holds, symbols.len());
    }
    let at = chosen_positions(symbols, chosen, symbols.len());
    assert(at == found);
    assert forall|k: int|
        0 <= k < symbols.len() && chosen.contains((#[trigger] symbols[k]).uuid@) implies exists|
        i: int,
    |
        0 <= i < moves.len() && goes_to(#[trigger] moves[i], symbols[k], places[k]) by {
        assert(holds(k));
        assert(found.contains(k));
        let i = found.index_of(k);
        assert(goes_to(moves[i], symbols[k], places[k]));
    }
    assert forall|i: int| 0 <= i < moves.len() implies takes_one(
        symbols,
        chosen,
        places,
        #[trigger] moves[i],
    ) by {
        assert(holds(found[i]));
        assert(goes_to(moves[i], symbols[found[i]], places[found[i]]));
    }
}

/// A move takes this symbol to this place.
pub open spec fn goes_to(planned: PlannedMove, symbol: SheetSymbol, place: (i64, i64)) -> bool {
    planned.uuid@ == symbol.uuid@ && planned.x == place.0 && planned.y == place.1
}

/// A move takes one of the chosen symbols to its place.
pub open spec fn takes_one(
    symbols: Seq<SheetSymbol>,
    chosen: Seq<Seq<char>>,
    places: Seq<(i64, i64)>,
    planned: PlannedMove,
) -> bool {
    exists|k: int|
        0 <= k < symbols.len() && chosen.contains((#[trigger] symbols[k]).uuid@) && goes_to(
            planned,
            symbols[k],
            places[k],
        )
}

/// A replacement is tried exactly if the component is placed, and only one
/// placed unit can be given another number.
pub proof fn law_a_replacement_needs_a_placement(
    reference: Seq<char>,
    placed: nat,
    new_unit: Option<u32>,
)
    ensures
        request_refusal(reference, placed, new_unit) is None <==> placed == 1 || (placed > 1
            && new_unit is None),
{
}

/// A new symbol fits exactly if it has the unit that was asked for or, without
/// one, every unit that is placed.
pub proof fn law_a_symbol_fits_when_it_has_the_units(
    reference: Seq<char>,
    new_lib_id: Seq<char>,
    new_unit: Option<u32>,
    current: Seq<u32>,
    unit_count: u32,
)
    ensures
        new_unit matches Some(unit) ==> (unit_refusal(
            reference,
            new_lib_id,
            new_unit,
            current,
            unit_count,
        ) is None <==> 1 <= unit <= unit_count),
        new_unit is None ==> (unit_refusal(
            reference,
            new_lib_id,
            new_unit,
            current,
            unit_count,
        ) is None <==> forall|i: int|
            0 <= i < current.len() ==> 1 <= #[trigger] current[i] <= unit_count),
{
    lemma_in_range(current, unit_count, current.len());
}

proof fn lemma_in_range(units: Seq<u32>, unit_count: u32, n: nat)
    requires
        n <= units.len(),
    ensures
        first_out_of_range(units, unit_count, n) is None <==> forall|i: int|
            0 <= i < n ==> 1 <= #[trigger] units[i] <= unit_count,
    decreases n,
{
    if n > 0 {
        lemma_in_range(units, unit_count, (n - 1) as nat);
    }
}

/// The number of units is the greatest of the numbers, and one without any.
pub proof fn law_the_greatest_unit_counts(units: Seq<u32>)
    ensures
        greatest(units) >= 1,
        forall|i: int| 0 <= i < units.len() ==> #[trigger] units[i] <= greatest(units),
        greatest(units) == 1 || units.contains(greatest(units)),
    decreases units.len(),
{
    if units.len() > 0 {
        let rest = units.drop_last();
        law_the_greatest_unit_counts(rest);
        assert(units[units.len() - 1] == units.last());
        assert forall|i: int| 0 <= i < units.len() implies #[trigger] units[i] <= greatest(
            units,
        ) by {
            if i < rest.len() {
                assert(rest[i] == units[i]);
            }
        }
        if rest.contains(greatest(rest)) {
            assert(units[rest.index_of(greatest(rest))] == greatest(rest));
        }
    }
}

/// A symbol is found by the first node of its name.
pub proof fn law_a_symbol_is_the_first_of_its_name(symbols: Seq<Sexp>, name: Seq<char>)
    ensures
        symbol_named(symbols, name) is None <==> forall|i: int|
            0 <= i < symbols.len() ==> (#[trigger] symbols[i]).text_at(1) != Some(name),
        forall|i: int|
            0 <= i < symbols.len() && (#[trigger] symbols[i]).text_at(1) == Some(name) && (forall|
                j: int,
            |
                0 <= j < i ==> (#[trigger] symbols[j]).text_at(1) != Some(name)) ==> symbol_named(
                symbols,
                name,
            ) == Some(symbols[i]),
    decreases symbols.len(),
{
    if symbols.len() > 0 {
        let rest = symbols.drop_last();
        law_a_symbol_is_the_first_of_its_name(rest, name);
        assert(symbols[symbols.len() - 1] == symbols.last());
        assert(forall|i: int| 0 <= i < rest.len() ==> #[trigger] rest[i] == symbols[i]);
        if symbol_named(rest, name) is Some {
            let i = choose|i: int|
                0 <= i < rest.len() && (#[trigger] rest[i]).text_at(1) == Some(name);
            assert(symbols[i].text_at(1) == Some(name));
        } else {
            assert forall|i: int| 0 <= i < rest.len() implies (#[trigger] symbols[i]).text_at(1)
                != Some(name) by {
                assert(rest[i].text_at(1) != Some(name));
            }
        }
        assert forall|i: int|
            0 <= i < symbols.len() && (#[trigger] symbols[i]).text_at(1) == Some(name) && (forall|
                j: int,
            |
                0 <= j < i ==> (#[trigger] symbols[j]).text_at(1) != Some(
                    name,
                )) implies symbol_named(symbols, name) == Some(symbols[i]) by {
            if i < rest.len() {
                assert(rest[i] == symbols[i]);
                assert forall|j: int| 0 <= j < i implies (#[trigger] rest[j]).text_at(1) != Some(
                    name,
                ) by {
                    assert(symbols[j].text_at(1) != Some(name));
                }
            }
        }
    }
}

/// The names of nodes are those of every node that has one, in order.
pub proof fn law_every_named_node_is_listed(list: Seq<Sexp>)
    ensures
        forall|name: Seq<char>| #[trigger]
            node_names(list).contains(name) <==> exists|i: int|
                0 <= i < list.len() && (#[trigger] list[i]).text_at(1) == Some(name),
        (forall|i: int| 0 <= i < list.len() ==> (#[trigger] list[i]).text_at(1) is Some)
            ==> node_names(list) == list.map_values(|node: Sexp| node.text_at(1)->0),
    decreases list.len(),
{
    if list.len() > 0 {
        let rest = list.drop_last();
        law_every_named_node_is_listed(rest);
        let (all, part) = (node_names(list), node_names(rest));
        assert(list[list.len() - 1] == list.last());
        assert(forall|i: int| 0 <= i < rest.len() ==> #[trigger] rest[i] == list[i]);
        assert forall|name: Seq<char>| #[trigger] all.contains(name) <==> exists|i: int|
            0 <= i < list.len() && (#[trigger] list[i]).text_at(1) == Some(name) by {
            if part.contains(name) {
                let i = choose|i: int|
                    0 <= i < rest.len() && (#[trigger] rest[i]).text_at(1) == Some(name);
                assert(list[i].text_at(1) == Some(name));
                assert(all[part.index_of(name)] == name);
            }
            if all.contains(name) && list.last().text_at(1) != Some(name) {
                assert(part[all.index_of(name)] == name);
            }
            if exists|i: int| 0 <= i < list.len() && (#[trigger] list[i]).text_at(1) == Some(name) {
                let i = choose|i: int|
                    0 <= i < list.len() && (#[trigger] list[i]).text_at(1) == Some(name);
                if i < rest.len() {
                    assert(rest[i].text_at(1) == Some(name));
                } else {
                    assert(all[part.len() as int] == name);
                }
            }
        }
        if forall|i: int| 0 <= i < list.len() ==> (#[trigger] list[i]).text_at(1) is Some {
            assert forall|i: int| 0 <= i < rest.len() implies (
            #[trigger] rest[i]).text_at(1) is Some by {
                assert(list[i].text_at(1) is Some);
            }
            assert(all =~= list.map_values(|node: Sexp| node.text_at(1)->0));
        }
    } else {
        assert(node_names(list) =~= list.map_values(|node: Sexp| node.text_at(1)->0));
    }
}

/// The name of a symbol is what stands behind the last colon, and all of it
/// without one.
pub proof fn law_a_symbol_name_has_no_colon(lib_id: Seq<char>)
    ensures
        !symbol_name(lib_id).contains(':'),
        symbol_name(lib_id).len() <= lib_id.len(),
        lib_id.skip(lib_id.len() - symbol_name(lib_id).len()) == symbol_name(lib_id),
        symbol_name(lib_id).len() < lib_id.len() ==> lib_id[lib_id.len() - symbol_name(lib_id).len()
            - 1] == ':',
    decreases lib_id.len(),
{
    if lib_id.len() > 0 && lib_id.last() != ':' {
        let rest = lib_id.drop_last();
        law_a_symbol_name_has_no_colon(rest);
        let (all, part) = (symbol_name(lib_id), symbol_name(rest));
        if all.contains(':') {
            let i = all.index_of(':');
            assert(i < part.len());
            assert(part[i] == ':');
        }
        assert(lib_id.skip(lib_id.len() - all.len()) =~= rest.skip(rest.len() - part.len()).push(
            lib_id.last(),
        ));
    } else {
        assert(lib_id.skip(lib_id.len() - symbol_name(lib_id).len()) =~= symbol_name(lib_id));
    }
}

/// Sorting texts keeps each as often as it occurs, and none comes before the
/// one that stands before it.
pub proof fn law_sorted_texts_are_in_order(list: Seq<Seq<char>>)
    ensures
        sorted_texts(list).to_multiset() == list.to_multiset(),
        forall|i: int, j: int|
            0 <= i < j < sorted_texts(list).len() ==> !text_before(
                #[trigger] sorted_texts(list)[j],
                #[trigger] sorted_texts(list)[i],
            ),
    decreases list.len(),
{
    broadcast use vstd::seq_lib::group_to_multiset_ensures;

    if list.len() > 0 {
        law_sorted_texts_are_in_order(list.drop_last());
        lemma_text_put(sorted_texts(list.drop_last()), list.last());
        assert(list =~= list.drop_last().push(list.last()));
    } else {
        assert(sorted_texts(list) =~= list);
    }
}

proof fn lemma_text_put(list: Seq<Seq<char>>, text: Seq<char>)
    requires
        forall|i: int, j: int|
            0 <= i < j < list.len() ==> !text_before(#[trigger] list[j], #[trigger] list[i]),
    ensures
        placed_text(list, text).to_multiset() == list.to_multiset().insert(text),
        placed_text(list, text).len() == list.len() + 1,
        forall|i: int, j: int|
            0 <= i < j < list.len() + 1 ==> !text_before(
                #[trigger] placed_text(list, text)[j],
                #[trigger] placed_text(list, text)[i],
            ),
    decreases list.len(),
{
    broadcast use vstd::seq_lib::group_to_multiset_ensures;

    let res = placed_text(list, text);
    if list.len() == 0 || !text_before(text, list.last()) {
        assert forall|i: int, j: int| 0 <= i < j < res.len() implies !text_before(
            #[trigger] res[j],
            #[trigger] res[i],
        ) by {
            assert(res[i] == list[i]);
            if j < list.len() {
                assert(res[j] == list[j]);
            } else if i < list.len() - 1 && text_before(text, list[i]) {
                assert(!text_before(list[list.len() - 1], list[i]));
                lemma_text_before_total(list.last(), list[i]);
                if list.last() != list[i] {
                    lemma_text_before_transitive(text, list[i], list.last());
                }
            }
        }
    } else {
        let rest = list.drop_last();
        lemma_text_put(rest, text);
        let part = placed_text(rest, text);
        assert(list =~= rest.push(list.last()));
        assert(res.to_multiset() =~= list.to_multiset().insert(text));
        assert forall|i: int, j: int| 0 <= i < j < res.len() implies !text_before(
            #[trigger] res[j],
            #[trigger] res[i],
        ) by {
            assert(res[i] == part[i]);
            if j < part.len() {
                assert(res[j] == part[j]);
            } else {
                assert(res[j] == list.last());
                assert(part.to_multiset().contains(part[i]));
                assert(rest.to_multiset().insert(text).contains(part[i]));
                if part[i] == text {
                    if text_before(list.last(), text) {
                        lemma_text_before_transitive(text, list.last(), text);
                        lemma_text_before_irreflexive(text);
                    }
                } else {
                    assert(rest.to_multiset().contains(part[i]));
                    let q = choose|q: int| 0 <= q < rest.len() && rest[q] == part[i];
                    assert(list[q] == rest[q]);
                    assert(!text_before(list[list.len() - 1], list[q]));
                }
            }
        }
    }
}

/// A placement sets the reference, the value and the footprint, and no other
/// field.
pub proof fn law_a_placement_sets_three_fields(
    reference: Seq<char>,
    value: Seq<char>,
    footprint: Seq<char>,
)
    ensures
        ({
            let fields = placement_fields_map(reference, value, footprint);
            &&& fields.contains_key("Reference"@) && fields["Reference"@] == reference
            &&& fields.contains_key("Value"@) && fields["Value"@] == value
            &&& fields.contains_key("Footprint"@) && fields["Footprint"@] == footprint
            &&& forall|name: Seq<char>| #[trigger]
                fields.contains_key(name) ==> name == "Reference"@ || name == "Value"@ || name
                    == "Footprint"@
        }),
{
    reveal_strlit("Reference");
    reveal_strlit("Value");
    reveal_strlit("Footprint");
    assert("Reference"@[0] != "Value"@[0]);
    assert("Reference"@[0] != "Footprint"@[0]);
    assert("Value"@[0] != "Footprint"@[0]);
}

/// A move leaves a unit what it is: its identifier, its number, its fields, its
/// symbol, its mirror and where it is used.
pub proof fn law_a_move_leaves_the_rest(before: ComponentTargetUnit, after: ComponentTargetUnit)
    requires
        only_moved(before, after),
    ensures
        after.uuid@ == before.uuid@,
        after.unit == before.unit,
        after.fields@ == before.fields@,
        after.lib_id@ == before.lib_id@,
        after.mirror == before.mirror,
        after.instances@ == before.instances@,
{
}

/// Angles are brought into one turn of 360 degrees, and whole turns make no
/// difference.
pub proof fn law_whole_turns_make_no_difference(angle: int, turns: int)
    ensures
        0 <= within_turn(angle) < 360_000_000,
        within_turn(angle + turns * 360_000_000) == within_turn(angle),
        0 <= angle < 360_000_000 ==> within_turn(angle) == angle,
{
    vstd::arithmetic::div_mod::lemma_mod_multiples_vanish(turns, angle, 360_000_000);
    assert(360_000_000 * turns + angle == angle + turns * 360_000_000);
}

/// What is listed of a symbol is what it says of itself; a symbol without a
/// reference is listed under a question mark, and one without an angle as
/// upright.
pub proof fn law_a_symbol_is_listed_as_it_is(symbol: SheetSymbol, pins: Option<usize>)
    ensures
        ({
            let entry = listed(symbol, pins);
            &&& symbol.value_of("Reference"@) matches Some(reference) ==> entry.reference
                == reference
            &&& symbol.value_of("Reference"@) is None ==> entry.reference == "?"@
            &&& symbol.value_of("Value"@) matches Some(value) ==> entry.value == value
            &&& symbol.value_of("Value"@) is None ==> entry.value.len() == 0
            &&& symbol.value_of("Footprint"@) matches Some(footprint) ==> entry.footprint
                == footprint
            &&& symbol.value_of("Footprint"@) is None ==> entry.footprint.len() == 0
            &&& entry.lib_id == symbol.lib_id@
            &&& entry.x == symbol.x && entry.y == symbol.y
            &&& symbol.rotation matches Some(angle) ==> entry.rotation == angle
            &&& symbol.rotation is None ==> entry.rotation == 0
            &&& entry.mirror_x <==> symbol.mirror is Some && symbol.mirror->0@.contains('x')
            &&& entry.mirror_y <==> symbol.mirror is Some && symbol.mirror->0@.contains('y')
            &&& entry.pins == pins
        }),
{
}

} // verus!
