//! Where the units of a component stand, and where its pins end.

use crate::chars::contains_char;
use crate::decimal::{number_text, write_number};
use crate::lists::{ints, positions_where};
use crate::symbol::SheetSymbol;
use crate::text::{concat3, concat5, opt_text, text_eq};
use vstd::prelude::*;
use vstd::string::*;

verus! {

/// A pin of a placed unit: where it ends, which way it points, and how long it
/// is.
#[derive(PartialEq, Eq, Debug)]
pub struct PinEnd {
    pub number: String,
    pub name: String,
    pub x: i64,
    pub y: i64,
    pub orientation: i64,
    pub length: i64,
}

/// The definition that a schematic embeds for a placed unit, with the pins of
/// that unit. `extends` names the parent of a derived definition.
#[derive(PartialEq, Eq, Debug)]
pub struct EmbeddedDefinition {
    pub extends: Option<String>,
    pub pins: Vec<PinEnd>,
}

/// A placed unit, with the name under which its definition is embedded.
#[derive(PartialEq, Eq, Debug)]
pub struct UnitPlace {
    pub reference: String,
    pub unit: u32,
    pub x: i64,
    pub y: i64,
    pub rotation: i64,
    pub definition_name: String,
    pub definition: Option<EmbeddedDefinition>,
}

/// The units of one component by their positions in a list. The anchor is the
/// first of those with the least unit number.
#[derive(PartialEq, Eq, Debug)]
pub struct ComponentUnits {
    pub anchor: usize,
    pub units: Vec<usize>,
}

/// The units of one component, and all of their pins: each by the position of
/// its unit in the list of units and by its own position in the definition.
#[derive(PartialEq, Eq, Debug)]
pub struct PinLocations {
    pub anchor: usize,
    pub units: Vec<usize>,
    pub pins: Vec<(usize, usize)>,
}

/// The position is the first of those listed with the least unit number.
pub open spec fn is_anchor(units: spec_fn(int) -> u32, positions: Seq<int>, anchor: int) -> bool {
    &&& positions.contains(anchor)
    &&& forall|q: int| #[trigger]
        positions.contains(q) ==> units(anchor) < units(q) || (units(anchor) == units(q) && anchor
            <= q)
}

/// The positions of the units of a component.
pub open spec fn places_of(places: Seq<UnitPlace>, reference: Seq<char>, n: nat) -> Seq<int> {
    positions_where(|i: int| places[i].reference@ == reference, n)
}

/// The positions of the symbols of a component.
pub open spec fn symbols_of(symbols: Seq<SheetSymbol>, reference: Seq<char>, n: nat) -> Seq<int> {
    positions_where(|i: int| symbols[i].value_of("Reference"@) == Some(reference), n)
}

/// What is said of a component that is not placed.
pub open spec fn not_found_text(reference: Seq<char>) -> Seq<char> {
    "Component '"@ + reference + "' not found"@
}

/// What keeps the pins of a unit from being located.
pub open spec fn unit_fault(place: UnitPlace) -> Option<Seq<char>> {
    match place.definition {
        None => Some(
            "Component '"@ + place.reference@ + "' unit "@ + number_text(place.unit as nat) + (
            " has no embedded definition for '"@ + place.definition_name@
                + "' in this schematic's lib_symbols — re-add it with a valid lib_id"@),
        ),
        Some(definition) => match definition.extends {
            Some(parent) => if definition.pins@.len() == 0 {
                Some(
                    "Component '"@ + place.reference@ + "' unit "@ + number_text(place.unit as nat)
                        + (": the embedded definition for '"@ + place.definition_name@
                        + "' is an (extends \""@ + parent@
                        + "\") stub with no pins — re-add the component so the definition is embedded in full"@),
                )
            } else {
                None
            },
            None => None,
        },
    }
}

/// What keeps the pins of a component from being located: the fault of the
/// first unit that has one.
pub open spec fn first_unit_fault(places: Seq<UnitPlace>, reference: Seq<char>, n: nat) -> Option<
    Seq<char>,
>
    decreases n,
{
    if n == 0 {
        None
    } else {
        match first_unit_fault(places, reference, (n - 1) as nat) {
            Some(fault) => Some(fault),
            None => if places[n - 1].reference@ == reference {
                unit_fault(places[n - 1])
            } else {
                None
            },
        }
    }
}

/// The number of pins of a unit.
pub open spec fn pin_count(place: UnitPlace) -> nat {
    match place.definition {
        Some(definition) => definition.pins@.len(),
        None => 0,
    }
}

/// All the pins of a component, unit by unit.
pub open spec fn located_pins(places: Seq<UnitPlace>, reference: Seq<char>, n: nat) -> Seq<
    (int, int),
>
    decreases n,
{
    if n == 0 {
        Seq::empty()
    } else {
        let rest = located_pins(places, reference, (n - 1) as nat);
        if places[n - 1].reference@ == reference {
            rest + Seq::new(pin_count(places[n - 1]), |k: int| (n - 1, k))
        } else {
            rest
        }
    }
}

/// Positions of pins as numbers.
pub open spec fn int_pairs(list: Seq<(usize, usize)>) -> Seq<(int, int)> {
    Seq::new(list.len(), |i: int| (list[i].0 as int, list[i].1 as int))
}

proof fn lemma_fault_stays(places: Seq<UnitPlace>, reference: Seq<char>, n: nat)
    requires
        n <= places.len(),
        first_unit_fault(places, reference, n) is Some,
    ensures
        first_unit_fault(places, reference, places.len()) == first_unit_fault(places, reference, n),
    decreases places.len() - n,
{
    if n < places.len() {
        lemma_fault_stays(places, reference, n + 1);
    }
}

/// The text that names a unit of a component.
fn unit_text(place: &UnitPlace) -> (res: String)
    ensures
        res@ == "Component '"@ + place.reference@ + "' unit "@ + number_text(place.unit as nat),
{
    let mut res = concat3("Component '", place.reference.as_str(), "' unit ");
    res.append(write_number(place.unit as usize).as_str());
    res
}

/// What keeps the pins of a unit from being located.
fn refuse_unit(place: &UnitPlace) -> (res: Option<String>)
    ensures
        opt_text(res) == unit_fault(*place),
{
    match &place.definition {
        None => {
            let mut text = unit_text(place);
            let rest = concat3(
                " has no embedded definition for '",
                place.definition_name.as_str(),
                "' in this schematic's lib_symbols — re-add it with a valid lib_id",
            );
            text.append(rest.as_str());
            Some(text)
        },
        Some(definition) => match &definition.extends {
            Some(parent) => if definition.pins.len() == 0 {
                let mut text = unit_text(place);
                let rest = concat5(
                    ": the embedded definition for '",
                    place.definition_name.as_str(),
                    "' is an (extends \"",
                    parent.as_str(),
                    "\") stub with no pins — re-add the component so the definition is embedded in full",
                );
                text.append(rest.as_str());
                Some(text)
            } else {
                None
            },
            None => None,
        },
    }
}

/// Where the units of a component stand and where its pins end. A unit without
/// an embedded definition, or with a derived one that has no pins, is refused.
pub fn pin_locations_for_reference(places: &Vec<UnitPlace>, reference: &str) -> (res: Result<
    PinLocations,
    String,
>)
    ensures
        match res {
            Ok(found) => {
                &&& first_unit_fault(places@, reference@, places@.len()) is None
                &&& is_anchor(
                    |i: int| places@[i].unit,
                    places_of(places@, reference@, places@.len()),
                    found.anchor as int,
                )
                &&& ints(found.units@) == places_of(places@, reference@, places@.len())
                &&& int_pairs(found.pins@) == located_pins(places@, reference@, places@.len())
            },
            Err(fault) => if places_of(places@, reference@, places@.len()).len() == 0 {
                fault@ == not_found_text(reference@)
            } else {
                first_unit_fault(places@, reference@, places@.len()) == Some(fault@)
            },
        },
{
    let mut anchor: Option<usize> = None;
    let mut units: Vec<usize> = Vec::new();
    let mut pins: Vec<(usize, usize)> = Vec::new();
    let mut i: usize = 0;
    while i < places.len()
        invariant
            i <= places@.len(),
            first_unit_fault(places@, reference@, i as nat) is None,
            ints(units@) == places_of(places@, reference@, i as nat),
            int_pairs(pins@) == located_pins(places@, reference@, i as nat),
            anchor is None ==> units@.len() == 0,
            forall|q: int| #[trigger] ints(units@).contains(q) ==> 0 <= q < i,
            anchor matches Some(p) ==> is_anchor(
                |i: int| places@[i].unit,
                ints(units@),
                p as int,
            ),
        decreases places@.len() - i,
    {
        if text_eq(places[i].reference.as_str(), reference) {
            let ghost before = ints(units@);
            if let Some(fault) = refuse_unit(&places[i]) {
                proof {
                    lemma_fault_stays(places@, reference@, (i + 1) as nat);
                    lemma_unit_stays(places@, reference@, i, places@.len());
                }
                return Err(fault);
            }
            let ghost old_anchor = anchor;
            match anchor {
                None => {
                    anchor = Some(i);
                },
                Some(p) => {
                    assert(before.contains(p as int));
                    if places[i].unit < places[p].unit {
                        anchor = Some(i);
                    }
                },
            }
            units.push(i);
            assert(ints(units@) =~= before.push(i as int));
            proof {
                let now = ints(units@);
                assert(now[now.len() - 1] == i);
                assert forall|q: int| now.contains(q) <==> before.contains(q) || q == i by {
                    if before.contains(q) {
                        let k = before.index_of(q);
                        assert(now[k] == q);
                    }
                }
            }
            if let Some(definition) = &places[i].definition {
                let ghost earlier = int_pairs(pins@);
                let mut k: usize = 0;
                while k < definition.pins.len()
                    invariant
                        k <= definition.pins@.len(),
                        int_pairs(pins@) == earlier + Seq::new(k as nat, |k: int| (i as int, k)),
                    decreases definition.pins@.len() - k,
                {
                    let ghost sofar = int_pairs(pins@);
                    pins.push((i, k));
                    assert(int_pairs(pins@) =~= sofar.push((i as int, k as int)));
                    k += 1;
                    assert(int_pairs(pins@) =~= earlier + Seq::new(
                        k as nat,
                        |k: int| (i as int, k),
                    ));
                }
            }
            assert(int_pairs(pins@) =~= located_pins(places@, reference@, (i + 1) as nat));
        }
        i += 1;
    }
    match anchor {
        Some(p) => Ok(PinLocations { anchor: p, units, pins }),
        None => Err(concat3("Component '", reference, "' not found")),
    }
}

proof fn lemma_unit_stays(places: Seq<UnitPlace>, reference: Seq<char>, i: usize, n: nat)
    requires
        i < n <= places.len(),
        places[i as int].reference@ == reference,
    ensures
        places_of(places, reference, n).len() > 0,
    decreases n,
{
    if n > i + 1 {
        lemma_unit_stays(places, reference, i, (n - 1) as nat);
    }
}

/// The units of a component among the symbols of a sheet.
pub fn component_units(symbols: &Vec<SheetSymbol>, reference: &str) -> (res: Result<
    ComponentUnits,
    String,
>)
    ensures
        match res {
            Ok(found) => {
                &&& is_anchor(
                    |i: int| symbols@[i].unit,
                    symbols_of(symbols@, reference@, symbols@.len()),
                    found.anchor as int,
                )
                &&& ints(found.units@) == symbols_of(symbols@, reference@, symbols@.len())
            },
            Err(fault) => {
                &&& symbols_of(symbols@, reference@, symbols@.len()).len() == 0
                &&& fault@ == not_found_text(reference@)
            },
        },
{
    let mut anchor: Option<usize> = None;
    let mut units: Vec<usize> = Vec::new();
    let mut i: usize = 0;
    while i < symbols.len()
        invariant
            i <= symbols@.len(),
            ints(units@) == symbols_of(symbols@, reference@, i as nat),
            anchor is None ==> units@.len() == 0,
            forall|q: int| #[trigger] ints(units@).contains(q) ==> 0 <= q < i,
            anchor matches Some(p) ==> is_anchor(
                |i: int| symbols@[i].unit,
                ints(units@),
                p as int,
            ),
        decreases symbols@.len() - i,
    {
        let named = match symbols[i].property("Reference") {
            Some(name) => text_eq(name.as_str(), reference),
            None => false,
        };
        if named {
            let ghost before = ints(units@);
            match anchor {
                None => {
                    anchor = Some(i);
                },
                Some(p) => {
                    assert(before.contains(p as int));
                    if symbols[i].unit < symbols[p].unit {
                        anchor = Some(i);
                    }
                },
            }
            units.push(i);
            assert(ints(units@) =~= before.push(i as int));
            proof {
                let now = ints(units@);
                assert(now[now.len() - 1] == i);
                assert forall|q: int| now.contains(q) <==> before.contains(q) || q == i by {
                    if before.contains(q) {
                        let k = before.index_of(q);
                        assert(now[k] == q);
                    }
                }
            }
        }
        i += 1;
    }
    match anchor {
        Some(p) => Ok(ComponentUnits { anchor: p, units }),
        None => Err(concat3("Component '", reference, "' not found")),
    }
}

/// The axes that a mirror text names: `x` first, then `y`.
pub fn mirror_axes(mirror: &Option<String>) -> (res: (bool, bool))
    ensures
        res.0 == (mirror matches Some(text) && text@.contains('x')),
        res.1 == (mirror matches Some(text) && text@.contains('y')),
{
    match mirror {
        Some(text) => (contains_char(text.as_str(), 'x'), contains_char(text.as_str(), 'y')),
        None => (false, false),
    }
}

} // verus!
