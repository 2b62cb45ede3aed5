//! Reading a component back from a saved schematic, and holding it to what a
//! change intended.

use crate::chars::contains_char;
use crate::decimal::{number_text, write_number};
use crate::deletion::{
    indexed, indexed_uuid_items, is_symbol, item_views, stale, ItemView, TopLevelBlock,
};
use crate::lists::{ints, positions_where};
use crate::netlist::texts_of;
use crate::sexp::nodes;
use crate::symbol::{
    checked_instance_paths, clone_paths, field_hidden, is_hidden, path_views, paths_text,
    records_fault, same_paths, usage, write_paths, PathView, SheetSymbol, SymbolProperty,
};
use crate::text::{concat2, concat3, concat5, opt_text, ordered_list_of, owned, text_eq, texts};
use crate::text_map::{sorted_unique, TextMap};
use crate::tool_error::{ComponentDeleteTargetError, TargetFault, ToolError};
use vstd::prelude::*;
use vstd::string::*;

verus! {

/// A schematic as it was read: its file, the blocks of its text and its
/// symbols.
#[derive(PartialEq, Eq, Debug)]
pub struct ReadSchematic {
    pub filepath: String,
    pub blocks: Vec<TopLevelBlock>,
    pub symbols: Vec<SheetSymbol>,
}

/// Where a field's text was found.
#[derive(Clone, Copy, PartialEq, Eq, Debug, Structural)]
pub struct ObservedPlacement {
    pub x: i64,
    pub y: i64,
    pub rotation: i64,
    pub hide: bool,
}

/// A unit of a component as it was found.
#[derive(PartialEq, Eq, Debug)]
pub struct ObservedUnit {
    pub uuid: String,
    pub unit: u32,
    pub x: i64,
    pub y: i64,
    pub rotation: i64,
    pub mirror_x: bool,
    pub mirror_y: bool,
    pub lib_id: String,
    pub fields: TextMap<String>,
    pub field_placements: TextMap<ObservedPlacement>,
    pub instance_paths: Vec<(String, String)>,
    pub instance_references: Vec<String>,
}

/// A component as it was found; what belongs to no unit is that of the first.
#[derive(PartialEq, Eq, Debug)]
pub struct ObservedComponent {
    pub schematic: String,
    pub reference: String,
    pub value: String,
    pub footprint: String,
    pub datasheet: String,
    pub units: Vec<ObservedUnit>,
}

/// The content of an [`ObservedUnit`].
pub struct UnitView {
    pub uuid: Seq<char>,
    pub unit: u32,
    pub x: i64,
    pub y: i64,
    pub rotation: i64,
    pub mirror_x: bool,
    pub mirror_y: bool,
    pub lib_id: Seq<char>,
    pub fields: Map<Seq<char>, Seq<char>>,
    pub field_placements: Map<Seq<char>, ObservedPlacement>,
    pub instance_paths: Seq<PathView>,
    pub instance_references: Seq<Seq<char>>,
}

impl View for ObservedUnit {
    type V = UnitView;

    open spec fn view(&self) -> UnitView {
        UnitView {
            uuid: self.uuid@,
            unit: self.unit,
            x: self.x,
            y: self.y,
            rotation: self.rotation,
            mirror_x: self.mirror_x,
            mirror_y: self.mirror_y,
            lib_id: self.lib_id@,
            fields: texts_of(self.fields@),
            field_placements: self.field_placements@,
            instance_paths: path_views(self.instance_paths@),
            instance_references: texts(self.instance_references@),
        }
    }
}

/// The contents of a list of units.
pub open spec fn unit_views(list: Seq<ObservedUnit>) -> Seq<UnitView> {
    Seq::new(list.len(), |i: int| list[i]@)
}

/// The content of an [`ObservedComponent`].
pub struct ComponentObservation {
    pub schematic: Seq<char>,
    pub reference: Seq<char>,
    pub value: Seq<char>,
    pub footprint: Seq<char>,
    pub datasheet: Seq<char>,
    pub units: Seq<UnitView>,
}

impl View for ObservedComponent {
    type V = ComponentObservation;

    open spec fn view(&self) -> ComponentObservation {
        ComponentObservation {
            schematic: self.schematic@,
            reference: self.reference@,
            value: self.value@,
            footprint: self.footprint@,
            datasheet: self.datasheet@,
            units: unit_views(self.units@),
        }
    }
}

/// The positions of the symbols with this identifier.
pub open spec fn with_uuid(symbols: Seq<SheetSymbol>, uuid: Seq<char>) -> Seq<int> {
    positions_where(|i: int| symbols[i].uuid@ == uuid, symbols.len())
}

/// The first of these identifiers that does not identify a symbol of the file.
pub open spec fn first_unbound(uuids: Seq<Seq<char>>, items: Map<Seq<char>, ItemView>) -> Option<
    Seq<char>,
>
    decreases uuids.len(),
{
    if uuids.len() == 0 {
        None
    } else {
        match first_unbound(uuids.drop_last(), items) {
            Some(uuid) => Some(uuid),
            None => if is_symbol(items, uuids.last()) {
                None
            } else {
                Some(uuids.last())
            },
        }
    }
}

/// A text, so many times.
pub open spec fn repeated(text: Seq<char>, count: nat) -> Seq<Seq<char>> {
    Seq::new(count, |i: int| text)
}

/// The positions of the symbols with these identifiers, each the only one, or
/// the first fault.
pub open spec fn find_observed(
    path: Seq<char>,
    symbols: Seq<SheetSymbol>,
    uuids: Seq<Seq<char>>,
) -> Result<Seq<int>, TargetFault>
    decreases uuids.len(),
{
    if uuids.len() == 0 {
        Ok(Seq::empty())
    } else {
        match find_observed(path, symbols, uuids.drop_last()) {
            Err(fault) => Err(fault),
            Ok(list) => {
                let uuid = uuids.last();
                let found = with_uuid(symbols, uuid);
                if found.len() == 0 {
                    Err(
                        stale(
                            path,
                            "component UUID "@ + uuid + " is absent from the observed schematic"@,
                        ),
                    )
                } else if found.len() > 1 {
                    Err(
                        TargetFault::Ambiguous {
                            target: "schematic symbol UUID "@ + uuid,
                            candidates: repeated(uuid, found.len()),
                        },
                    )
                } else {
                    Ok(list.push(found[0]))
                }
            },
        }
    }
}

/// The references of the symbols at these positions.
pub open spec fn observed_references(symbols: Seq<SheetSymbol>, at: Seq<int>) -> Set<Seq<char>> {
    Set::new(
        |text: Seq<char>|
            exists|i: int|
                0 <= i < at.len() && #[trigger] symbols[at[i]].value_of("Reference"@) == Some(text),
    )
}

/// One of the symbols at these positions has no reference.
pub open spec fn some_unreferenced(symbols: Seq<SheetSymbol>, at: Seq<int>) -> bool {
    exists|i: int|
        0 <= i < at.len() && #[trigger] symbols[at[i]].value_of("Reference"@) is None
}

/// Puts position `k` into an order by unit, behind those that it does not come
/// before.
pub open spec fn placed_by_unit(symbols: Seq<SheetSymbol>, order: Seq<int>, k: int) -> Seq<int>
    decreases order.len(),
{
    if order.len() == 0 || symbols[order.last()].unit <= symbols[k].unit {
        order.push(k)
    } else {
        placed_by_unit(symbols, order.drop_last(), k).push(order.last())
    }
}

/// The positions in the order of their units; those of one unit stay as they
/// were.
pub open spec fn by_unit(symbols: Seq<SheetSymbol>, at: Seq<int>) -> Seq<int>
    decreases at.len(),
{
    if at.len() == 0 {
        Seq::empty()
    } else {
        placed_by_unit(symbols, by_unit(symbols, at.drop_last()), at.last())
    }
}

/// The fields of the first `n` properties; a name that occurs twice is a fault.
pub open spec fn fields_of(reference: Seq<char>, symbol: SheetSymbol, n: nat) -> Result<
    Map<Seq<char>, Seq<char>>,
    TargetFault,
>
    decreases n,
{
    if n == 0 {
        Ok(Map::empty())
    } else {
        match fields_of(reference, symbol, (n - 1) as nat) {
            Err(fault) => Err(fault),
            Ok(fields) => {
                let own = symbol.properties@[n - 1];
                if fields.contains_key(own.name@) {
                    Err(
                        TargetFault::Ambiguous {
                            target: "component "@ + reference + " unit "@ + number_text(
                                symbol.unit as nat,
                            ) + " field "@ + own.name@,
                            candidates: seq![symbol.uuid@, symbol.uuid@],
                        },
                    )
                } else {
                    Ok(fields.insert(own.name@, own.value@))
                }
            },
        }
    }
}

/// Where the fields of the first `n` properties stand, as far as that is said.
pub open spec fn placements_of(properties: Seq<SymbolProperty>, n: nat) -> Map<
    Seq<char>,
    ObservedPlacement,
>
    decreases n,
{
    if n == 0 {
        Map::empty()
    } else {
        let rest = placements_of(properties, (n - 1) as nat);
        let own = properties[n - 1];
        match own.at {
            Some(at) => rest.insert(
                own.name@,
                ObservedPlacement {
                    x: at.x,
                    y: at.y,
                    rotation: match at.rotation {
                        Some(angle) => angle,
                        None => 0,
                    },
                    hide: is_hidden(nodes(own.nodes@)),
                },
            ),
            None => rest,
        }
    }
}

/// One of the instance paths names no reference.
pub open spec fn some_path_unnamed(list: Seq<Option<String>>) -> bool {
    exists|i: int| 0 <= i < list.len() && #[trigger] list[i] is None
}

/// The references that the instance paths name.
pub open spec fn named_references(list: Seq<Option<String>>) -> Set<Seq<char>> {
    Set::new(
        |text: Seq<char>|
            exists|i: int| 0 <= i < list.len() && opt_text(#[trigger] list[i]) == Some(text),
    )
}

/// The first of the texts that differs from this one.
pub open spec fn first_other(list: Seq<Seq<char>>, text: Seq<char>) -> Option<Seq<char>>
    decreases list.len(),
{
    if list.len() == 0 {
        None
    } else {
        match first_other(list.drop_last(), text) {
            Some(other) => Some(other),
            None => if list.last() == text {
                None
            } else {
                Some(list.last())
            },
        }
    }
}

/// The text of a mirror names this axis.
pub open spec fn mirrors(mirror: Option<String>, axis: char) -> bool {
    mirror is Some && mirror->0@.contains(axis)
}

/// The unit that a symbol shows, given where those before it are used.
pub open spec fn observe_unit(
    path: Seq<char>,
    reference: Seq<char>,
    symbols: Seq<SheetSymbol>,
    order: Seq<int>,
    previous: Option<Seq<PathView>>,
    symbol: SheetSymbol,
) -> Result<UnitView, TargetFault> {
    let fields = fields_of(reference, symbol, symbol.properties@.len());
    let records = records_fault(path, symbol, symbol.instances@.len());
    let named = ordered_list_of(named_references(symbol.path_references@));
    let name = "component UUID "@ + symbol.uuid@;
    if fields is Err {
        Err(fields->Err_0)
    } else if records is Some {
        Err(records->0)
    } else if previous is Some && previous->0 != usage(symbol) {
        Err(
            TargetFault::Ambiguous {
                target: "component "@ + reference + " hierarchy instances"@,
                candidates: Seq::new(
                    order.len(),
                    |i: int|
                        symbols[order[i]].uuid@ + ": "@ + paths_text(
                            declared_paths(symbols[order[i]]),
                        ),
                ),
            },
        )
    } else if some_path_unnamed(symbol.path_references@) {
        Err(stale(path, name + " has an instance path without a reference"@))
    } else if first_other(named, reference) is Some {
        Err(
            stale(
                path,
                name + " renders as "@ + reference + " but an instance path still names "@
                    + first_other(named, reference)->0,
            ),
        )
    } else {
        Ok(
            UnitView {
                uuid: symbol.uuid@,
                unit: symbol.unit,
                x: symbol.x,
                y: symbol.y,
                rotation: match symbol.rotation {
                    Some(angle) => angle,
                    None => 0,
                },
                mirror_x: mirrors(symbol.mirror, 'x'),
                mirror_y: mirrors(symbol.mirror, 'y'),
                lib_id: symbol.lib_id@,
                fields: fields->Ok_0,
                field_placements: placements_of(symbol.properties@, symbol.properties@.len()),
                instance_paths: usage(symbol),
                instance_references: named,
            },
        )
    }
}

/// The project and path of each record that has both.
pub open spec fn declared_paths(symbol: SheetSymbol) -> Seq<PathView> {
    declared_upto(symbol, symbol.instances@.len())
}

/// The project and path of each of the first `n` records that has both.
pub open spec fn declared_upto(symbol: SheetSymbol, n: nat) -> Seq<PathView>
    decreases n,
{
    if n == 0 {
        Seq::empty()
    } else {
        let rest = declared_upto(symbol, (n - 1) as nat);
        let record = symbol.instances@[n - 1];
        match (record.project, record.path) {
            (Some(project), Some(own)) => rest.push((project@, own@)),
            _ => rest,
        }
    }
}

/// The units that the first `n` symbols of an order show.
pub open spec fn observe_units(
    path: Seq<char>,
    reference: Seq<char>,
    symbols: Seq<SheetSymbol>,
    order: Seq<int>,
    n: nat,
) -> Result<Seq<UnitView>, TargetFault>
    decreases n,
{
    if n == 0 {
        Ok(Seq::empty())
    } else {
        match observe_units(path, reference, symbols, order, (n - 1) as nat) {
            Err(fault) => Err(fault),
            Ok(list) => {
                let previous = if n == 1 {
                    None
                } else {
                    Some(usage(symbols[order[n - 2]]))
                };
                match observe_unit(
                    path,
                    reference,
                    symbols,
                    order,
                    previous,
                    symbols[order[n - 1]],
                ) {
                    Err(fault) => Err(fault),
                    Ok(unit) => Ok(list.push(unit)),
                }
            },
        }
    }
}

/// The component that a schematic shows for these identifiers, or the first
/// fault that stands against it.
pub open spec fn readback(
    path: Seq<char>,
    same_document: bool,
    committed: ReadSchematic,
    given: Seq<Seq<char>>,
    expected_reference: Option<Seq<char>>,
) -> Result<ComponentObservation, TargetFault> {
    let uuids = ordered_list_of(given.to_set());
    let items = indexed(path, committed.blocks@);
    let symbols = committed.symbols@;
    let found = find_observed(path, symbols, uuids);
    if !same_document {
        Err(stale(path, "component mutation readback came from a different schematic"@))
    } else if given.len() == 0 {
        Err(stale(path, "no component UUIDs were bound"@))
    } else if uuids.len() != given.len() {
        Err(TargetFault::Ambiguous { target: path, candidates: given })
    } else if items is Err {
        Err(items->Err_0)
    } else if first_unbound(uuids, items->Ok_0) is Some {
        Err(
            stale(
                path,
                "bound UUID "@ + first_unbound(uuids, items->Ok_0)->0
                    + " no longer identifies one top-level symbol"@,
            ),
        )
    } else if found is Err {
        Err(found->Err_0)
    } else {
        let at = found->Ok_0;
        let references = ordered_list_of(observed_references(symbols, at));
        if some_unreferenced(symbols, at) {
            Err(stale(path, "a bound component UUID has no observed Reference field"@))
        } else if references.len() != 1 {
            Err(TargetFault::Ambiguous { target: path, candidates: references })
        } else if expected_reference is Some && expected_reference->0 != references[0] {
            Err(
                stale(
                    path,
                    "bound component UUIDs resolve to "@ + references[0] + ", not "@
                        + expected_reference->0,
                ),
            )
        } else {
            let order = by_unit(symbols, at);
            match observe_units(path, references[0], symbols, order, order.len()) {
                Err(fault) => Err(fault),
                Ok(units) => Ok(
                    ComponentObservation {
                        schematic: committed.filepath@,
                        reference: references[0],
                        value: symbols[order[0]].value_or_empty("Value"@),
                        footprint: symbols[order[0]].value_or_empty("Footprint"@),
                        datasheet: symbols[order[0]].value_or_empty("Datasheet"@),
                        units,
                    },
                ),
            }
        }
    }
}

proof fn lemma_unbound_stays(uuids: Seq<Seq<char>>, items: Map<Seq<char>, ItemView>, n: int)
    requires
        0 <= n <= uuids.len(),
        first_unbound(uuids.take(n), items) is Some,
    ensures
        first_unbound(uuids, items) == first_unbound(uuids.take(n), items),
    decreases uuids.len() - n,
{
    if n == uuids.len() {
        assert(uuids.take(n) =~= uuids);
    } else {
        assert(uuids.take(n + 1).drop_last() =~= uuids.take(n));
        lemma_unbound_stays(uuids, items, n + 1);
    }
}

fn find_unbound(
    uuids: &Vec<String>,
    items: &TextMap<crate::deletion::IndexedSchematicItem>,
) -> (res: Option<usize>)
    ensures
        match res {
            Some(i) => i < uuids@.len() && first_unbound(texts(uuids@), item_views(items@))
                == Some(uuids@[i as int]@),
            None => first_unbound(texts(uuids@), item_views(items@)) is None,
        },
{
    let ghost all = texts(uuids@);
    let ghost views = item_views(items@);
    let mut i: usize = 0;
    assert(all.take(0) =~= Seq::empty());
    while i < uuids.len()
        invariant
            i <= uuids@.len(),
            all == texts(uuids@),
            views == item_views(items@),
            first_unbound(all.take(i as int), views) is None,
        decreases uuids@.len() - i,
    {
        proof {
            assert(all.take(i + 1).drop_last() =~= all.take(i as int));
            assert(all.take(i + 1).last() == uuids@[i as int]@);
        }
        let bound: bool = match items.get(uuids[i].as_str()) {
            Some(item) => text_eq(item.kind.as_str(), "symbol"),
            None => false,
        };
        assert(bound == is_symbol(views, uuids@[i as int]@));
        if !bound {
            proof {
                lemma_unbound_stays(all, views, i + 1);
            }
            return Some(i);
        }
        i += 1;
    }
    assert(all.take(i as int) =~= all);
    None
}

fn find_with_uuid(symbols: &Vec<SheetSymbol>, uuid: &str) -> (res: Vec<usize>)
    ensures
        ints(res@) == with_uuid(symbols@, uuid@),
        forall|i: int| 0 <= i < res@.len() ==> (#[trigger] res@[i]) < symbols@.len(),
{
    let ghost holds = |i: int| symbols@[i].uuid@ == uuid@;
    let mut res: Vec<usize> = Vec::new();
    let mut i: usize = 0;
    assert(ints(res@) =~= positions_where(holds, 0));
    while i < symbols.len()
        invariant
            i <= symbols@.len(),
            holds == (|i: int| symbols@[i].uuid@ == uuid@),
            ints(res@) == positions_where(holds, i as nat),
            forall|j: int| 0 <= j < res@.len() ==> (#[trigger] res@[j]) < symbols@.len(),
        decreases symbols@.len() - i,
    {
        let ghost before = ints(res@);
        assert(holds(i as int) == (symbols@[i as int].uuid@ == uuid@));
        if text_eq(symbols[i].uuid.as_str(), uuid) {
            res.push(i);
            assert(ints(res@) =~= before.push(i as int));
        }
        i += 1;
    }
    res
}

proof fn lemma_observed_fault_stays(
    path: Seq<char>,
    symbols: Seq<SheetSymbol>,
    uuids: Seq<Seq<char>>,
    n: int,
)
    requires
        0 <= n <= uuids.len(),
        find_observed(path, symbols, uuids.take(n)) is Err,
    ensures
        find_observed(path, symbols, uuids) == find_observed(path, symbols, uuids.take(n)),
    decreases uuids.len() - n,
{
    if n == uuids.len() {
        assert(uuids.take(n) =~= uuids);
    } else {
        assert(uuids.take(n + 1).drop_last() =~= uuids.take(n));
        lemma_observed_fault_stays(path, symbols, uuids, n + 1);
    }
}

fn repeat_text(text: &str, count: usize) -> (res: Vec<String>)
    ensures
        texts(res@) == repeated(text@, count as nat),
{
    let ghost all = repeated(text@, count as nat);
    let mut res: Vec<String> = Vec::new();
    let mut i: usize = 0;
    assert(texts(res@) =~= all.take(0));
    while i < count
        invariant
            i <= count,
            all == repeated(text@, count as nat),
            texts(res@) == all.take(i as int),
        decreases count - i,
    {
        let ghost before = texts(res@);
        res.push(owned(text));
        assert(texts(res@) =~= before.push(all[i as int]));
        assert(all.take(i + 1) =~= all.take(i as int).push(all[i as int]));
        i += 1;
    }
    assert(all.take(i as int) =~= all);
    res
}

fn find_symbols(path: &str, symbols: &Vec<SheetSymbol>, uuids: &Vec<String>) -> (res: Result<
    Vec<usize>,
    ComponentDeleteTargetError,
>)
    ensures
        match find_observed(path@, symbols@, texts(uuids@)) {
            Ok(list) => res matches Ok(at) && ints(at@) == list && at@.len() == uuids@.len()
                && forall|i: int| 0 <= i < at@.len() ==> (#[trigger] at@[i]) < symbols@.len(),
            Err(fault) => res matches Err(error) && error@ == fault,
        },
{
    let ghost all = texts(uuids@);
    let mut at: Vec<usize> = Vec::new();
    let mut i: usize = 0;
    assert(all.take(0) =~= Seq::empty());
    assert(ints(at@) =~= Seq::empty());
    while i < uuids.len()
        invariant
            i <= uuids@.len(),
            all == texts(uuids@),
            at@.len() == i,
            find_observed(path@, symbols@, all.take(i as int)) == Ok::<_, TargetFault>(
                ints(at@),
            ),
            forall|j: int| 0 <= j < at@.len() ==> (#[trigger] at@[j]) < symbols@.len(),
        decreases uuids@.len() - i,
    {
        let uuid = uuids[i].as_str();
        proof {
            assert(all.take(i + 1).drop_last() =~= all.take(i as int));
            assert(all.take(i + 1).last() == uuid@);
        }
        let found = find_with_uuid(symbols, uuid);
        assert(ints(found@).len() == found@.len());
        if found.len() == 0 {
            proof {
                lemma_observed_fault_stays(path@, symbols@, all, i + 1);
            }
            let reason = concat3(
                "component UUID ",
                uuid,
                " is absent from the observed schematic",
            );
            return Err(ComponentDeleteTargetError::stale(path, reason));
        }
        if found.len() > 1 {
            proof {
                lemma_observed_fault_stays(path@, symbols@, all, i + 1);
            }
            return Err(
                ComponentDeleteTargetError::Ambiguous {
                    target: concat2("schematic symbol UUID ", uuid),
                    candidates: repeat_text(uuid, found.len()),
                },
            );
        }
        let ghost before = ints(at@);
        assert(ints(found@)[0] == found@[0]);
        at.push(found[0]);
        assert(ints(at@) =~= before.push(found@[0] as int));
        i += 1;
    }
    assert(all.take(i as int) =~= all);
    Ok(at)
}

spec fn all_in(at: Seq<usize>, symbols: Seq<SheetSymbol>) -> bool {
    forall|i: int| 0 <= i < at.len() ==> (#[trigger] at[i]) < symbols.len()
}

/// The references of these symbols in order; nothing where one has none.
fn collect_references(symbols: &Vec<SheetSymbol>, at: &Vec<usize>) -> (res: Option<Vec<String>>)
    requires
        all_in(at@, symbols@),
    ensures
        match res {
            Some(list) => !some_unreferenced(symbols@, ints(at@)) && texts(list@)
                == ordered_list_of(observed_references(symbols@, ints(at@))),
            None => some_unreferenced(symbols@, ints(at@)),
        },
{
    let ghost all = ints(at@);
    let mut list: Vec<String> = Vec::new();
    let mut i: usize = 0;
    while i < at.len()
        invariant
            i <= at@.len(),
            all == ints(at@),
            all_in(at@, symbols@),
            forall|j: int|
                0 <= j < i ==> #[trigger] symbols@[all[j]].value_of("Reference"@) is Some,
            forall|text: Seq<char>| #[trigger]
                texts(list@).contains(text) <==> exists|j: int|
                    0 <= j < i && #[trigger] symbols@[all[j]].value_of("Reference"@) == Some(text),
        decreases at@.len() - i,
    {
        let ghost before = texts(list@);
        let symbol = &symbols[at[i]];
        assert(symbols@[all[i as int]] == *symbol);
        match symbol.property("Reference") {
            Some(reference) => {
                let ghost own = reference@;
                list.push(reference);
                proof {
                    let now = texts(list@);
                    assert(now =~= before.push(own));
                    assert(symbols@[all[i as int]].value_of("Reference"@) == Some(own));
                    assert forall|text: Seq<char>| #[trigger] now.contains(text) <==> exists|
                        j: int,
                    |
                        0 <= j < i + 1 && #[trigger] symbols@[all[j]].value_of("Reference"@)
                            == Some(text) by {
                        assert(before.contains(text) <==> exists|j: int|
                            0 <= j < i && #[trigger] symbols@[all[j]].value_of("Reference"@)
                                == Some(text));
                        if before.contains(text) {
                            assert(now[before.index_of(text)] == text);
                        }
                        assert(now[before.len() as int] == own);
                    }
                }
            },
            None => {
                assert(symbols@[all[i as int]].value_of("Reference"@) is None);
                return None;
            },
        }
        i += 1;
    }
    assert(texts(list@).to_set() =~= observed_references(symbols@, all));
    Some(sorted_unique(&list))
}

fn place_by_unit(symbols: &Vec<SheetSymbol>, order: &mut Vec<usize>, k: usize)
    requires
        k < symbols@.len(),
        all_in(old(order)@, symbols@),
    ensures
        ints(final(order)@) == placed_by_unit(symbols@, ints(old(order)@), k as int),
        final(order)@.len() == old(order)@.len() + 1,
        all_in(final(order)@, symbols@),
{
    let ghost all = ints(order@);
    let mut at: usize = order.len();
    assert(all.take(at as int) =~= all);
    assert(placed_by_unit(symbols@, all, k as int) + all.skip(at as int) =~= placed_by_unit(
        symbols@,
        all,
        k as int,
    ));
    while at > 0 && symbols[k].unit < symbols[order[at - 1]].unit
        invariant
            at <= order@.len(),
            k < symbols@.len(),
            all == ints(order@),
            all_in(order@, symbols@),
            placed_by_unit(symbols@, all, k as int) == placed_by_unit(
                symbols@,
                all.take(at as int),
                k as int,
            ) + all.skip(at as int),
        decreases at,
    {
        proof {
            let head = all.take(at as int);
            assert(head.drop_last() =~= all.take(at - 1));
            assert(head.last() == all[at - 1]);
            let inner = placed_by_unit(symbols@, all.take(at - 1), k as int);
            assert(inner.push(all[at - 1]) + all.skip(at as int) =~= inner + all.skip(at - 1));
        }
        at -= 1;
    }
    proof {
        let head = all.take(at as int);
        if at > 0 {
            assert(head.last() == all[at - 1]);
        }
        assert(placed_by_unit(symbols@, head, k as int) == head.push(k as int));
    }
    order.insert(at, k);
    assert(ints(order@) =~= all.take(at as int).push(k as int) + all.skip(at as int));
}

fn order_by_unit(symbols: &Vec<SheetSymbol>, at: &Vec<usize>) -> (res: Vec<usize>)
    requires
        all_in(at@, symbols@),
    ensures
        ints(res@) == by_unit(symbols@, ints(at@)),
        res@.len() == at@.len(),
        all_in(res@, symbols@),
{
    let ghost all = ints(at@);
    let mut order: Vec<usize> = Vec::new();
    let mut i: usize = 0;
    assert(all.take(0) =~= Seq::empty());
    assert(ints(order@) =~= Seq::empty());
    while i < at.len()
        invariant
            i <= at@.len(),
            all == ints(at@),
            all_in(at@, symbols@),
            all_in(order@, symbols@),
            order@.len() == i,
            ints(order@) == by_unit(symbols@, all.take(i as int)),
        decreases at@.len() - i,
    {
        proof {
            assert(all.take(i + 1).drop_last() =~= all.take(i as int));
            assert(all.take(i + 1).last() == at@[i as int]);
        }
        place_by_unit(symbols, &mut order, at[i]);
        i += 1;
    }
    assert(all.take(i as int) =~= all);
    order
}

proof fn lemma_fields_fault_stays(reference: Seq<char>, symbol: SheetSymbol, n: nat)
    requires
        n <= symbol.properties@.len(),
        fields_of(reference, symbol, n) is Err,
    ensures
        fields_of(reference, symbol, symbol.properties@.len()) == fields_of(reference, symbol, n),
    decreases symbol.properties@.len() - n,
{
    if n < symbol.properties@.len() {
        lemma_fields_fault_stays(reference, symbol, n + 1);
    }
}

fn read_fields(reference: &str, symbol: &SheetSymbol) -> (res: Result<
    TextMap<String>,
    ComponentDeleteTargetError,
>)
    ensures
        match fields_of(reference@, *symbol, symbol.properties@.len()) {
            Ok(fields) => res matches Ok(map) && texts_of(map@) == fields,
            Err(fault) => res matches Err(error) && error@ == fault,
        },
{
    let mut fields: TextMap<String> = TextMap::new();
    let mut i: usize = 0;
    assert(texts_of(fields@) =~= Map::empty());
    while i < symbol.properties.len()
        invariant
            i <= symbol.properties@.len(),
            fields_of(reference@, *symbol, i as nat) == Ok::<_, TargetFault>(texts_of(fields@)),
        decreases symbol.properties@.len() - i,
    {
        let own = &symbol.properties[i];
        let ghost before = fields@;
        assert(texts_of(before).contains_key(own.name@) <==> before.contains_key(own.name@));
        if fields.contains_key(own.name.as_str()) {
            let mut target = concat5(
                "component ",
                reference,
                " unit ",
                write_number(symbol.unit as usize).as_str(),
                " field ",
            );
            target.append(own.name.as_str());
            let mut candidates: Vec<String> = Vec::new();
            candidates.push(symbol.uuid.clone());
            candidates.push(symbol.uuid.clone());
            proof {
                assert(texts(candidates@) =~= seq![symbol.uuid@, symbol.uuid@]);
                lemma_fields_fault_stays(reference@, *symbol, (i + 1) as nat);
            }
            return Err(ComponentDeleteTargetError::Ambiguous { target, candidates });
        }
        fields.insert(own.name.clone(), own.value.clone());
        assert(texts_of(fields@) =~= texts_of(before).insert(own.name@, own.value@));
        i += 1;
    }
    Ok(fields)
}

fn read_placements(properties: &Vec<SymbolProperty>) -> (res: TextMap<ObservedPlacement>)
    ensures
        res@ == placements_of(properties@, properties@.len()),
{
    let mut placements: TextMap<ObservedPlacement> = TextMap::new();
    let mut i: usize = 0;
    while i < properties.len()
        invariant
            i <= properties@.len(),
            placements@ == placements_of(properties@, i as nat),
        decreases properties@.len() - i,
    {
        let own = &properties[i];
        let hide = field_hidden(&own.nodes);
        if let Some(at) = own.at {
            let placement = ObservedPlacement {
                x: at.x,
                y: at.y,
                rotation: match at.rotation {
                    Some(angle) => angle,
                    None => 0,
                },
                hide,
            };
            placements.insert(own.name.clone(), placement);
        }
        i += 1;
    }
    placements
}

/// The references that instance paths name, in order; nothing where one names
/// none.
fn read_named(list: &Vec<Option<String>>) -> (res: Option<Vec<String>>)
    ensures
        match res {
            Some(named) => !some_path_unnamed(list@) && texts(named@) == ordered_list_of(
                named_references(list@),
            ),
            None => some_path_unnamed(list@),
        },
{
    let mut found: Vec<String> = Vec::new();
    let mut i: usize = 0;
    while i < list.len()
        invariant
            i <= list@.len(),
            forall|j: int| 0 <= j < i ==> #[trigger] list@[j] is Some,
            forall|text: Seq<char>| #[trigger]
                texts(found@).contains(text) <==> exists|j: int|
                    0 <= j < i && opt_text(#[trigger] list@[j]) == Some(text),
        decreases list@.len() - i,
    {
        let ghost before = texts(found@);
        match &list[i] {
            Some(reference) => {
                found.push(reference.clone());
                proof {
                    let now = texts(found@);
                    assert(now =~= before.push(reference@));
                    assert(opt_text(list@[i as int]) == Some(reference@));
                    assert forall|text: Seq<char>| #[trigger] now.contains(text) <==> exists|
                        j: int,
                    |
                        0 <= j < i + 1 && opt_text(#[trigger] list@[j]) == Some(text) by {
                        assert(before.contains(text) <==> exists|j: int|
                            0 <= j < i && opt_text(#[trigger] list@[j]) == Some(text));
                        if before.contains(text) {
                            assert(now[before.index_of(text)] == text);
                        }
                        assert(now[before.len() as int] == reference@);
                    }
                }
            },
            None => {
                assert(list@[i as int] is None);
                return None;
            },
        }
        i += 1;
    }
    assert(texts(found@).to_set() =~= named_references(list@));
    Some(sorted_unique(&found))
}

fn find_other(list: &Vec<String>, text: &str) -> (res: Option<usize>)
    ensures
        match res {
            Some(i) => i < list@.len() && first_other(texts(list@), text@) == Some(
                list@[i as int]@,
            ),
            None => first_other(texts(list@), text@) is None,
        },
{
    let ghost all = texts(list@);
    let mut i: usize = 0;
    assert(all.take(0) =~= Seq::empty());
    while i < list.len()
        invariant
            i <= list@.len(),
            all == texts(list@),
            first_other(all.take(i as int), text@) is None,
        decreases list@.len() - i,
    {
        proof {
            assert(all.take(i + 1).drop_last() =~= all.take(i as int));
            assert(all.take(i + 1).last() == list@[i as int]@);
        }
        if !text_eq(list[i].as_str(), text) {
            proof {
                lemma_other_stays(all, text@, i + 1);
            }
            return Some(i);
        }
        i += 1;
    }
    assert(all.take(i as int) =~= all);
    None
}

proof fn lemma_other_stays(list: Seq<Seq<char>>, text: Seq<char>, n: int)
    requires
        0 <= n <= list.len(),
        first_other(list.take(n), text) is Some,
    ensures
        first_other(list, text) == first_other(list.take(n), text),
    decreases list.len() - n,
{
    if n == list.len() {
        assert(list.take(n) =~= list);
    } else {
        assert(list.take(n + 1).drop_last() =~= list.take(n));
        lemma_other_stays(list, text, n + 1);
    }
}

pub(crate) fn has_axis(mirror: &Option<String>, axis: char) -> (res: bool)
    ensures
        res == mirrors(*mirror, axis),
{
    match mirror {
        Some(text) => contains_char(text.as_str(), axis),
        None => false,
    }
}

fn read_declared(symbol: &SheetSymbol) -> (res: Vec<(String, String)>)
    ensures
        path_views(res@) == declared_paths(*symbol),
{
    let mut res: Vec<(String, String)> = Vec::new();
    let mut i: usize = 0;
    assert(path_views(res@) =~= declared_upto(*symbol, 0));
    while i < symbol.instances.len()
        invariant
            i <= symbol.instances@.len(),
            path_views(res@) == declared_upto(*symbol, i as nat),
        decreases symbol.instances@.len() - i,
    {
        let ghost before = path_views(res@);
        let record = &symbol.instances[i];
        match (&record.project, &record.path) {
            (Some(project), Some(own)) => {
                res.push((project.clone(), own.clone()));
                assert(path_views(res@) =~= before.push((project@, own@)));
            },
            _ => {},
        }
        i += 1;
    }
    res
}

/// How the symbols of an order are used, for a message.
fn list_usages(symbols: &Vec<SheetSymbol>, order: &Vec<usize>) -> (res: Vec<String>)
    requires
        all_in(order@, symbols@),
    ensures
        texts(res@) == Seq::new(
            order@.len(),
            |i: int|
                symbols@[ints(order@)[i]].uuid@ + ": "@ + paths_text(
                    declared_paths(symbols@[ints(order@)[i]]),
                ),
        ),
{
    let ghost all = Seq::new(
        order@.len(),
        |i: int|
            symbols@[ints(order@)[i]].uuid@ + ": "@ + paths_text(
                declared_paths(symbols@[ints(order@)[i]]),
            ),
    );
    let mut res: Vec<String> = Vec::new();
    let mut i: usize = 0;
    assert(texts(res@) =~= all.take(0));
    while i < order.len()
        invariant
            i <= order@.len(),
            all_in(order@, symbols@),
            all == Seq::new(
                order@.len(),
                |i: int|
                    symbols@[ints(order@)[i]].uuid@ + ": "@ + paths_text(
                        declared_paths(symbols@[ints(order@)[i]]),
                    ),
            ),
            texts(res@) == all.take(i as int),
        decreases order@.len() - i,
    {
        let ghost before = texts(res@);
        let symbol = &symbols[order[i]];
        let declared = read_declared(symbol);
        let text = concat3(symbol.uuid.as_str(), ": ", write_paths(&declared).as_str());
        res.push(text);
        proof {
            assert(ints(order@)[i as int] == order@[i as int]);
            assert(texts(res@) =~= before.push(all[i as int]));
            assert(all.take(i + 1) =~= all.take(i as int).push(all[i as int]));
        }
        i += 1;
    }
    assert(all.take(i as int) =~= all);
    res
}

fn read_unit(
    path: &str,
    reference: &str,
    symbols: &Vec<SheetSymbol>,
    order: &Vec<usize>,
    previous: &Option<Vec<(String, String)>>,
    symbol: &SheetSymbol,
) -> (res: Result<ObservedUnit, ComponentDeleteTargetError>)
    requires
        all_in(order@, symbols@),
    ensures
        match observe_unit(
            path@,
            reference@,
            symbols@,
            ints(order@),
            match previous {
                Some(list) => Some(path_views(list@)),
                None => None,
            },
            *symbol,
        ) {
            Ok(unit) => res matches Ok(observed) && observed@ == unit && path_views(
                observed.instance_paths@,
            ) == usage(*symbol),
            Err(fault) => res matches Err(error) && error@ == fault,
        },
{
    let fields = match read_fields(reference, symbol) {
        Ok(map) => map,
        Err(error) => {
            return Err(error);
        },
    };
    let instance_paths = match checked_instance_paths(path, symbol) {
        Ok(list) => list,
        Err(error) => {
            return Err(error);
        },
    };
    let moved: bool = match previous {
        Some(list) => !same_paths(list, &instance_paths),
        None => false,
    };
    if moved {
        assert(ints(order@).len() == order@.len());
        let candidates = list_usages(symbols, order);
        return Err(
            ComponentDeleteTargetError::Ambiguous {
                target: concat3("component ", reference, " hierarchy instances"),
                candidates,
            },
        );
    }
    let instance_references = match read_named(&symbol.path_references) {
        Some(list) => list,
        None => {
            let reason = concat3(
                "component UUID ",
                symbol.uuid.as_str(),
                " has an instance path without a reference",
            );
            return Err(ComponentDeleteTargetError::stale(path, reason));
        },
    };
    if let Some(i) = find_other(&instance_references, reference) {
        let mut reason = concat5(
            "component UUID ",
            symbol.uuid.as_str(),
            " renders as ",
            reference,
            " but an instance path still names ",
        );
        reason.append(instance_references[i].as_str());
        return Err(ComponentDeleteTargetError::stale(path, reason));
    }
    Ok(
        ObservedUnit {
            uuid: symbol.uuid.clone(),
            unit: symbol.unit,
            x: symbol.x,
            y: symbol.y,
            rotation: match symbol.rotation {
                Some(angle) => angle,
                None => 0,
            },
            mirror_x: has_axis(&symbol.mirror, 'x'),
            mirror_y: has_axis(&symbol.mirror, 'y'),
            lib_id: symbol.lib_id.clone(),
            fields,
            field_placements: read_placements(&symbol.properties),
            instance_paths,
            instance_references,
        },
    )
}

proof fn lemma_units_fault_stays(
    path: Seq<char>,
    reference: Seq<char>,
    symbols: Seq<SheetSymbol>,
    order: Seq<int>,
    n: nat,
)
    requires
        n <= order.len(),
        observe_units(path, reference, symbols, order, n) is Err,
    ensures
        observe_units(path, reference, symbols, order, order.len()) == observe_units(
            path,
            reference,
            symbols,
            order,
            n,
        ),
    decreases order.len() - n,
{
    if n < order.len() {
        lemma_units_fault_stays(path, reference, symbols, order, n + 1);
    }
}

fn read_units(
    path: &str,
    reference: &str,
    symbols: &Vec<SheetSymbol>,
    order: &Vec<usize>,
) -> (res: Result<Vec<ObservedUnit>, ComponentDeleteTargetError>)
    requires
        all_in(order@, symbols@),
    ensures
        match observe_units(path@, reference@, symbols@, ints(order@), order@.len()) {
            Ok(units) => res matches Ok(list) && unit_views(list@) == units,
            Err(fault) => res matches Err(error) && error@ == fault,
        },
{
    let ghost all = ints(order@);
    let mut units: Vec<ObservedUnit> = Vec::new();
    let mut previous: Option<Vec<(String, String)>> = None;
    let mut i: usize = 0;
    assert(unit_views(units@) =~= Seq::empty());
    while i < order.len()
        invariant
            i <= order@.len(),
            all == ints(order@),
            all_in(order@, symbols@),
            match previous {
                Some(list) => i > 0 && path_views(list@) == usage(symbols@[all[i - 1]]),
                None => i == 0,
            },
            observe_units(path@, reference@, symbols@, all, i as nat) == Ok::<_, TargetFault>(
                unit_views(units@),
            ),
        decreases order@.len() - i,
    {
        let symbol = &symbols[order[i]];
        assert(all[i as int] == order@[i as int]);
        match read_unit(path, reference, symbols, order, &previous, symbol) {
            Ok(unit) => {
                let ghost before = unit_views(units@);
                let ghost view = unit@;
                previous = Some(clone_paths(&unit.instance_paths));
                units.push(unit);
                assert(unit_views(units@) =~= before.push(view));
            },
            Err(error) => {
                proof {
                    lemma_units_fault_stays(path@, reference@, symbols@, all, (i + 1) as nat);
                }
                return Err(error);
            },
        }
        i += 1;
    }
    Ok(units)
}

/// Reads a component back from a schematic by the identifiers of its units.
///
/// Everything that could make the answer a guess is an error: identifiers that
/// are missing or repeated, units that disagree about their reference or about
/// where they are used, fields that occur twice, and instance paths that name
/// another reference. `same_document` says whether the schematic is the file
/// at `path`.
pub fn component_mutation_readback_from_schematic(
    path: &str,
    same_document: bool,
    committed: &ReadSchematic,
    expected_uuids: &Vec<String>,
    expected_reference: Option<&str>,
) -> (res: Result<ObservedComponent, ToolError>)
    ensures
        match readback(
            path@,
            same_document,
            *committed,
            texts(expected_uuids@),
            match expected_reference {
                Some(text) => Some(text@),
                None => None,
            },
        ) {
            Ok(observation) => res matches Ok(component) && component@ == observation,
            Err(fault) => res matches Err(error) && error@ == fault.reported(),
        },
{
    let uuids = sorted_unique(expected_uuids);
    let ghost given = texts(expected_uuids@);
    assert(given.len() == expected_uuids@.len());
    assert(texts(uuids@).len() == uuids@.len());
    if !same_document {
        let reason = owned("component mutation readback came from a different schematic");
        return Err(ComponentDeleteTargetError::stale(path, reason).into_result());
    }
    if expected_uuids.len() == 0 {
        let reason = owned("no component UUIDs were bound");
        return Err(ComponentDeleteTargetError::stale(path, reason).into_result());
    }
    if uuids.len() != expected_uuids.len() {
        let candidates = clone_list(expected_uuids);
        return Err(
            ComponentDeleteTargetError::Ambiguous {
                target: owned(path),
                candidates,
            }.into_result(),
        );
    }
    let items = match indexed_uuid_items(path, &committed.blocks) {
        Ok(items) => items,
        Err(error) => {
            return Err(error.into_result());
        },
    };
    if let Some(i) = find_unbound(&uuids, &items) {
        let reason = concat3(
            "bound UUID ",
            uuids[i].as_str(),
            " no longer identifies one top-level symbol",
        );
        return Err(ComponentDeleteTargetError::stale(path, reason).into_result());
    }
    let symbols = &committed.symbols;
    let at = match find_symbols(path, symbols, &uuids) {
        Ok(at) => at,
        Err(error) => {
            return Err(error.into_result());
        },
    };
    let references = match collect_references(symbols, &at) {
        Some(list) => list,
        None => {
            let reason = owned("a bound component UUID has no observed Reference field");
            return Err(ComponentDeleteTargetError::stale(path, reason).into_result());
        },
    };
    assert(texts(references@).len() == references@.len());
    if references.len() != 1 {
        return Err(
            ComponentDeleteTargetError::Ambiguous {
                target: owned(path),
                candidates: references,
            }.into_result(),
        );
    }
    let reference = references[0].as_str();
    assert(texts(references@)[0] == reference@);
    if let Some(wanted) = expected_reference {
        if !text_eq(wanted, reference) {
            let mut reason = concat3("bound component UUIDs resolve to ", reference, ", not ");
            reason.append(wanted);
            return Err(ComponentDeleteTargetError::stale(path, reason).into_result());
        }
    }
    let order = order_by_unit(symbols, &at);
    assert(ints(order@).len() == order@.len());
    let units = match read_units(path, reference, symbols, &order) {
        Ok(units) => units,
        Err(error) => {
            return Err(error.into_result());
        },
    };
    let anchor = &symbols[order[0]];
    assert(ints(order@)[0] == order@[0]);
    Ok(
        ObservedComponent {
            schematic: committed.filepath.clone(),
            reference: owned(reference),
            value: anchor.property_or_empty("Value"),
            footprint: anchor.property_or_empty("Footprint"),
            datasheet: anchor.property_or_empty("Datasheet"),
            units,
        },
    )
}

fn clone_list(list: &Vec<String>) -> (res: Vec<String>)
    ensures
        texts(res@) == texts(list@),
{
    let ghost all = texts(list@);
    let mut res: Vec<String> = Vec::new();
    let mut i: usize = 0;
    assert(texts(res@) =~= all.take(0));
    while i < list.len()
        invariant
            i <= list@.len(),
            all == texts(list@),
            texts(res@) == all.take(i as int),
        decreases list@.len() - i,
    {
        let ghost before = texts(res@);
        res.push(list[i].clone());
        assert(texts(res@) =~= before.push(all[i as int]));
        assert(all.take(i + 1) =~= all.take(i as int).push(all[i as int]));
        i += 1;
    }
    assert(all.take(i as int) =~= all);
    res
}

} // verus!
