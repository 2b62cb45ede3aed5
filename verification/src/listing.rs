//! The components of a sheet, as a list and one by one.

use crate::moves::shown_reference;
use crate::pin_locations::{mirror_axes, PinEnd};
use crate::symbol::SheetSymbol;
use crate::text::{owned, text_eq};
use vstd::prelude::*;
use vstd::string::*;

verus! {

/// The pins of the placed unit with this identifier.
#[derive(PartialEq, Eq, Debug)]
pub struct UnitPins {
    pub uuid: String,
    pub pins: Vec<PinEnd>,
}

/// What is told of a placed symbol. `pins` is the position of its pins in the
/// list of those of all units.
#[derive(PartialEq, Eq, Debug)]
pub struct ListedComponent {
    pub reference: String,
    pub value: String,
    pub footprint: String,
    pub lib_id: String,
    pub x: i64,
    pub y: i64,
    pub rotation: i64,
    pub mirror_x: bool,
    pub mirror_y: bool,
    pub pins: Option<usize>,
}

/// The content of a [`ListedComponent`].
pub struct ListedView {
    pub reference: Seq<char>,
    pub value: Seq<char>,
    pub footprint: Seq<char>,
    pub lib_id: Seq<char>,
    pub x: i64,
    pub y: i64,
    pub rotation: i64,
    pub mirror_x: bool,
    pub mirror_y: bool,
    pub pins: Option<usize>,
}

impl View for ListedComponent {
    type V = ListedView;

    open spec fn view(&self) -> ListedView {
        ListedView {
            reference: self.reference@,
            value: self.value@,
            footprint: self.footprint@,
            lib_id: self.lib_id@,
            x: self.x,
            y: self.y,
            rotation: self.rotation,
            mirror_x: self.mirror_x,
            mirror_y: self.mirror_y,
            pins: self.pins,
        }
    }
}

/// The position is that of the first unit with the identifier, if there is one.
pub open spec fn is_pins_of(units: Seq<UnitPins>, uuid: Seq<char>, found: Option<usize>) -> bool {
    match found {
        Some(at) => {
            &&& at < units.len()
            &&& units[at as int].uuid@ == uuid
            &&& forall|i: int| 0 <= i < at ==> (#[trigger] units[i]).uuid@ != uuid
        },
        None => forall|i: int| 0 <= i < units.len() ==> (#[trigger] units[i]).uuid@ != uuid,
    }
}

/// The mirror of a symbol names the axis.
pub open spec fn mirrored_about(symbol: SheetSymbol, axis: char) -> bool {
    symbol.mirror matches Some(text) && text@.contains(axis)
}

/// What is told of a symbol whose pins are at this position.
pub open spec fn listed(symbol: SheetSymbol, pins: Option<usize>) -> ListedView {
    ListedView {
        reference: shown_reference(symbol),
        value: symbol.value_or_empty("Value"@),
        footprint: symbol.value_or_empty("Footprint"@),
        lib_id: symbol.lib_id@,
        x: symbol.x,
        y: symbol.y,
        rotation: match symbol.rotation {
            Some(rotation) => rotation,
            None => 0,
        },
        mirror_x: mirrored_about(symbol, 'x'),
        mirror_y: mirrored_about(symbol, 'y'),
        pins,
    }
}

fn find_pins(units: &Vec<UnitPins>, uuid: &str) -> (res: Option<usize>)
    ensures
        is_pins_of(units@, uuid@, res),
{
    let mut i: usize = 0;
    while i < units.len()
        invariant
            i <= units@.len(),
            forall|j: int| 0 <= j < i ==> (#[trigger] units@[j]).uuid@ != uuid@,
        decreases units@.len() - i,
    {
        if text_eq(units[i].uuid.as_str(), uuid) {
            return Some(i);
        }
        i += 1;
    }
    None
}

/// Describes one placed symbol.
pub fn describe_component(symbol: &SheetSymbol, units: &Vec<UnitPins>) -> (res: ListedComponent)
    ensures
        res@ == listed(*symbol, res.pins),
        is_pins_of(units@, symbol.uuid@, res.pins),
{
    let (mirror_x, mirror_y) = mirror_axes(&symbol.mirror);
    let rotation: i64 = match symbol.rotation {
        Some(rotation) => rotation,
        None => 0,
    };
    ListedComponent {
        reference: match symbol.property("Reference") {
            Some(reference) => reference,
            None => owned("?"),
        },
        value: symbol.property_or_empty("Value"),
        footprint: symbol.property_or_empty("Footprint"),
        lib_id: symbol.lib_id.clone(),
        x: symbol.x,
        y: symbol.y,
        rotation,
        mirror_x,
        mirror_y,
        pins: find_pins(units, symbol.uuid.as_str()),
    }
}

/// Lists the placed symbols of a sheet in file order, each with its place, its
/// value, its footprint and its pins.
pub fn list_components(symbols: &Vec<SheetSymbol>, units: &Vec<UnitPins>) -> (res: Vec<
    ListedComponent,
>)
    ensures
        res@.len() == symbols@.len(),
        forall|i: int|
            0 <= i < symbols@.len() ==> {
                &&& (#[trigger] res@[i])@ == listed(symbols@[i], res@[i].pins)
                &&& is_pins_of(units@, symbols@[i].uuid@, res@[i].pins)
            },
{
    let mut list: Vec<ListedComponent> = Vec::new();
    let mut i: usize = 0;
    while i < symbols.len()
        invariant
            i <= symbols@.len(),
            list@.len() == i,
            forall|j: int|
                0 <= j < i ==> {
                    &&& (#[trigger] list@[j])@ == listed(symbols@[j], list@[j].pins)
                    &&& is_pins_of(units@, symbols@[j].uuid@, list@[j].pins)
                },
        decreases symbols@.len() - i,
    {
        list.push(describe_component(&symbols[i], units));
        i += 1;
    }
    list
}

} // verus!
