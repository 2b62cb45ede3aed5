//! Placing a symbol: what its fields hold, and what the saved file must show.

use crate::decimal::{number_text, write_number_u64};
use crate::deletion::stale;
use crate::intent::{units_fault, verify_component_expectations, ComponentTargetUnit};
use crate::readback::{
    component_mutation_readback_from_schematic, readback, ComponentObservation, ObservedComponent,
    ReadSchematic,
};
use crate::symbol::{debug_text, debug_text_of, in_project, path_views, PathView};
use crate::text::{
    clone_opt, concat2, concat3, concat5, owned, text_eq, text_before, text_less, texts,
};
use crate::text_map::TextMap;
use crate::tool_error::{
    argument_refused, invalid_argument, ComponentDeleteTargetError, ErrorView, TargetFault,
    ToolError,
};
use vstd::prelude::*;
use vstd::string::*;

verus! {

/// What a library says of a symbol.
#[derive(PartialEq, Eq, Debug)]
pub struct SymbolMetadata {
    pub value: String,
    pub footprint: String,
    pub datasheet: String,
    pub description: String,
}

/// The value and the footprint that a placed symbol gets.
#[derive(PartialEq, Eq, Debug)]
pub struct PlacementFields {
    pub value: String,
    pub footprint: String,
}

/// What stands behind the last colon of a library name.
pub open spec fn symbol_name(lib_id: Seq<char>) -> Seq<char>
    decreases lib_id.len(),
{
    if lib_id.len() == 0 || lib_id.last() == ':' {
        Seq::empty()
    } else {
        symbol_name(lib_id.drop_last()).push(lib_id.last())
    }
}

/// The optional text, or another.
pub open spec fn given_or(value: Option<&str>, other: Seq<char>) -> Seq<char> {
    match value {
        Some(text) => text@,
        None => other,
    }
}

fn read_symbol_name(lib_id: &str) -> (res: String)
    ensures
        res@ == symbol_name(lib_id@),
{
    let list = crate::chars::chars_of(lib_id);
    let mut start: usize = list.len();
    assert(list@.take(start as int) =~= list@);
    assert(list@.skip(start as int) =~= Seq::empty());
    assert(symbol_name(list@) + Seq::<char>::empty() =~= symbol_name(list@));
    while start > 0 && list[start - 1] != ':'
        invariant
            start <= list@.len(),
            symbol_name(list@) == symbol_name(list@.take(start as int)) + list@.skip(start as int),
        decreases start,
    {
        proof {
            let head = list@.take(start as int);
            assert(head.last() == list@[start - 1]);
            assert(head.drop_last() =~= list@.take(start - 1));
            assert(symbol_name(head.drop_last()).push(head.last()) + list@.skip(start as int)
                =~= symbol_name(head.drop_last()) + list@.skip(start - 1));
        }
        start -= 1;
    }
    proof {
        let head = list@.take(start as int);
        if start > 0 {
            assert(head.last() == list@[start - 1]);
        }
        assert(symbol_name(head) =~= Seq::empty());
        assert(list@.subrange(start as int, list@.len() as int) =~= list@.skip(start as int));
        assert(Seq::<char>::empty() + list@.skip(start as int) =~= list@.skip(start as int));
    }
    crate::chars::string_of(&list, start, list.len())
}

impl PlacementFields {
    /// Resolves the fields of a placed symbol. What is asked for wins over the
    /// library; a library without a value gives way to the symbol's name.
    pub fn resolve(
        lib_id: &str,
        metadata: &SymbolMetadata,
        value: Option<&str>,
        footprint: Option<&str>,
    ) -> (res: PlacementFields)
        ensures
            res.value@ == given_or(
                value,
                if metadata.value@.len() == 0 {
                    symbol_name(lib_id@)
                } else {
                    metadata.value@
                },
            ),
            res.footprint@ == given_or(footprint, metadata.footprint@),
    {
        let empty = String::new();
        assert(metadata.value@.len() == 0 ==> metadata.value@ =~= empty@);
        let library_value = if metadata.value == empty {
            read_symbol_name(lib_id)
        } else {
            metadata.value.clone()
        };
        PlacementFields {
            value: match value {
                Some(text) => owned(text),
                None => library_value,
            },
            footprint: match footprint {
                Some(text) => owned(text),
                None => metadata.footprint.clone(),
            },
        }
    }
}

/// Puts a text into an ordered list, behind those that it does not come before.
pub open spec fn placed_text(list: Seq<Seq<char>>, text: Seq<char>) -> Seq<Seq<char>>
    decreases list.len(),
{
    if list.len() == 0 || !text_before(text, list.last()) {
        list.push(text)
    } else {
        placed_text(list.drop_last(), text).push(list.last())
    }
}

/// The texts in order, as often as they occur.
pub open spec fn sorted_texts(list: Seq<Seq<char>>) -> Seq<Seq<char>>
    decreases list.len(),
{
    if list.len() == 0 {
        Seq::empty()
    } else {
        placed_text(sorted_texts(list.drop_last()), list.last())
    }
}

fn place_text(list: &mut Vec<String>, text: String)
    ensures
        texts(final(list)@) == placed_text(texts(old(list)@), text@),
{
    let ghost all = texts(list@);
    let ghost own = text@;
    let mut at: usize = list.len();
    assert(all.take(at as int) =~= all);
    assert(placed_text(all, own) + all.skip(at as int) =~= placed_text(all, own));
    while at > 0 && text_less(text.as_str(), list[at - 1].as_str())
        invariant
            at <= list@.len(),
            all == texts(list@),
            own == text@,
            placed_text(all, own) == placed_text(all.take(at as int), own) + all.skip(at as int),
        decreases at,
    {
        proof {
            let head = all.take(at as int);
            assert(head.drop_last() =~= all.take(at - 1));
            assert(head.last() == all[at - 1]);
            let inner = placed_text(all.take(at - 1), own);
            assert(inner.push(all[at - 1]) + all.skip(at as int) =~= inner + all.skip(at - 1));
        }
        at -= 1;
    }
    proof {
        let head = all.take(at as int);
        if at > 0 {
            assert(head.last() == all[at - 1]);
        }
        assert(placed_text(head, own) == head.push(own));
    }
    list.insert(at, text);
    assert(texts(list@) =~= all.take(at as int).push(own) + all.skip(at as int));
}

/// Sorts texts, each as often as it occurs.
pub fn sort_texts(list: &Vec<String>) -> (res: Vec<String>)
    ensures
        texts(res@) == sorted_texts(texts(list@)),
{
    let ghost all = texts(list@);
    let mut res: Vec<String> = Vec::new();
    let mut i: usize = 0;
    assert(all.take(0) =~= Seq::empty());
    assert(texts(res@) =~= Seq::empty());
    while i < list.len()
        invariant
            i <= list@.len(),
            all == texts(list@),
            texts(res@) == sorted_texts(all.take(i as int)),
        decreases list@.len() - i,
    {
        proof {
            assert(all.take(i + 1).drop_last() =~= all.take(i as int));
            assert(all.take(i + 1).last() == list@[i as int]@);
        }
        place_text(&mut res, list[i].clone());
        i += 1;
    }
    assert(all.take(i as int) =~= all);
    res
}

/// The project that a sheet belongs to and the paths under which it is used.
#[derive(PartialEq, Eq, Debug)]
pub struct SheetInstanceContext {
    pub project_name: String,
    pub instance_paths: Vec<String>,
}

/// The fields that a placement sets.
pub open spec fn placement_fields_map(
    reference: Seq<char>,
    value: Seq<char>,
    footprint: Seq<char>,
) -> Map<Seq<char>, Seq<char>> {
    Map::empty().insert("Reference"@, reference).insert("Value"@, value).insert(
        "Footprint"@,
        footprint,
    )
}

impl ComponentTargetUnit {
    /// What a placement intends, independently of the model that writes it.
    pub fn placement(
        uuid: &str,
        context: &SheetInstanceContext,
        lib_id: &str,
        x: i64,
        y: i64,
        rotation: i64,
        mirror: &Option<String>,
        reference: &str,
        fields: &PlacementFields,
        unit: u32,
    ) -> (res: ComponentTargetUnit)
        ensures
            res.uuid@ == uuid@,
            res.unit == unit,
            res.lib_id@ == lib_id@,
            res.x == x,
            res.y == y,
            res.rotation == rotation,
            res.mirror == *mirror,
            crate::netlist::texts_of(res.fields@) == placement_fields_map(
                reference@,
                fields.value@,
                fields.footprint@,
            ),
            path_views(res.instances@) == in_project(
                context.project_name@,
                sorted_texts(texts(context.instance_paths@)),
            ),
    {
        let paths = sort_texts(&context.instance_paths);
        let ghost goal = in_project(context.project_name@, texts(paths@));
        let mut instances: Vec<(String, String)> = Vec::new();
        let mut i: usize = 0;
        assert(path_views(instances@) =~= goal.take(0));
        while i < paths.len()
            invariant
                i <= paths@.len(),
                goal == in_project(context.project_name@, texts(paths@)),
                path_views(instances@) == goal.take(i as int),
            decreases paths@.len() - i,
        {
            let ghost before = path_views(instances@);
            instances.push((context.project_name.clone(), paths[i].clone()));
            assert(path_views(instances@) =~= before.push(goal[i as int]));
            assert(goal.take(i + 1) =~= goal.take(i as int).push(goal[i as int]));
            i += 1;
        }
        assert(goal.take(i as int) =~= goal);
        let mut map: TextMap<String> = TextMap::new();
        map.insert(owned("Reference"), owned(reference));
        map.insert(owned("Value"), fields.value.clone());
        map.insert(owned("Footprint"), fields.footprint.clone());
        assert(crate::netlist::texts_of(map@) =~= placement_fields_map(
            reference@,
            fields.value@,
            fields.footprint@,
        ));
        ComponentTargetUnit {
            uuid: owned(uuid),
            unit,
            fields: map,
            lib_id: owned(lib_id),
            x,
            y,
            rotation,
            mirror: clone_opt(mirror),
            instances,
        }
    }
}

/// The value of an argument that may be a text.
#[derive(PartialEq, Eq, Debug)]
pub enum TextArgument {
    Absent,
    Text(String),
    Other,
}

/// An axis of reflection.
#[derive(Clone, Copy, PartialEq, Eq, Debug, Structural)]
pub enum MirrorAxis {
    X,
    Y,
}

/// Reads the reflection that a placement asks for: `x`, `y`, or none. Anything
/// else is refused, since a misspelt axis asks for a reflection.
pub fn mirror_arg(argument: &TextArgument, key: &str) -> (res: Result<Option<MirrorAxis>, ToolError>)
    ensures
        match argument {
            TextArgument::Absent => res == Ok::<Option<MirrorAxis>, ToolError>(None),
            TextArgument::Text(text) => if text@ == "x"@ {
                res == Ok::<Option<MirrorAxis>, ToolError>(Some(MirrorAxis::X))
            } else if text@ == "y"@ {
                res == Ok::<Option<MirrorAxis>, ToolError>(Some(MirrorAxis::Y))
            } else if text@ == "none"@ {
                res == Ok::<Option<MirrorAxis>, ToolError>(None)
            } else {
                res matches Err(error) && error@ == argument_refused(
                    key@,
                    "expected \"x\", \"y\" or \"none\", got "@ + debug_text_of(text@),
                )
            },
            TextArgument::Other => res matches Err(error) && error@ == argument_refused(
                key@,
                "expected a string: \"x\", \"y\" or \"none\""@,
            ),
        },
{
    match argument {
        TextArgument::Absent => Ok(None),
        TextArgument::Text(text) => {
            if text_eq(text.as_str(), "x") {
                Ok(Some(MirrorAxis::X))
            } else if text_eq(text.as_str(), "y") {
                Ok(Some(MirrorAxis::Y))
            } else if text_eq(text.as_str(), "none") {
                Ok(None)
            } else {
                Err(
                    invalid_argument(
                        key,
                        concat2(
                            "expected \"x\", \"y\" or \"none\", got ",
                            debug_text(text.as_str()).as_str(),
                        ),
                    ),
                )
            }
        },
        TextArgument::Other => Err(
            invalid_argument(key, owned("expected a string: \"x\", \"y\" or \"none\"")),
        ),
    }
}

/// Checks the unit of a placement against the number of units of its symbol.
/// One that is out of range would be drawn as the first, and its pins would be
/// assigned to the wrong nets.
pub fn check_unit_in_range(unit: u32, lib_id: &str, unit_count: u32) -> (res: Result<(), ToolError>)
    ensures
        res is Ok <==> 1 <= unit <= unit_count,
        res matches Err(error) ==> error@ == (ErrorView {
            kind: None,
            message: "Invalid unit "@ + number_text(unit as nat) + " for '"@ + lib_id@
                + "': the symbol has "@ + number_text(unit_count as nat)
                + " unit(s) (valid: 1..="@ + number_text(unit_count as nat) + ")."@,
        }),
{
    if unit >= 1 && unit <= unit_count {
        return Ok(());
    }
    let count_text = write_number_u64(unit_count as u64);
    let mut message = concat5(
        "Invalid unit ",
        write_number_u64(unit as u64).as_str(),
        " for '",
        lib_id,
        "': the symbol has ",
    );
    message.append(count_text.as_str());
    message.append(" unit(s) (valid: 1..=");
    message.append(count_text.as_str());
    message.append(").");
    Err(ToolError { kind: None, message })
}

/// The text begins with these characters.
pub open spec fn starts_with(text: Seq<char>, start: Seq<char>) -> bool {
    start.len() <= text.len() && text.take(start.len() as int) == start
}

fn begins_with(text: &str, start: &str) -> (res: bool)
    ensures
        res == starts_with(text@, start@),
{
    let list = crate::chars::chars_of(text);
    let wanted = crate::chars::chars_of(start);
    if wanted.len() > list.len() {
        return false;
    }
    let mut i: usize = 0;
    while i < wanted.len()
        invariant
            i <= wanted@.len() <= list@.len(),
            list@ == text@,
            wanted@ == start@,
            forall|j: int| 0 <= j < i ==> list@[j] == wanted@[j],
        decreases wanted@.len() - i,
    {
        if list[i] != wanted[i] {
            assert(text@.take(start@.len() as int)[i as int] != start@[i as int]);
            return false;
        }
        i += 1;
    }
    assert(text@.take(start@.len() as int) =~= start@);
    true
}

/// Whether the reference of a placed symbol is hidden: that of a power symbol
/// is never shown on a sheet.
pub fn hides_reference(lib_id: &str, reference: &str) -> (res: bool)
    ensures
        res == (starts_with(lib_id@, "power:"@) || starts_with(reference@, "#PWR"@)),
{
    begins_with(lib_id, "power:") || begins_with(reference, "#PWR")
}

/// A property that a placed symbol gets, and where its text stands.
#[derive(PartialEq, Eq, Debug)]
pub struct NewProperty {
    pub name: String,
    pub value: String,
    pub x: i64,
    pub y: i64,
    pub rotation: i64,
    pub hidden: bool,
}

/// The content of a [`NewProperty`].
pub struct NewPropertyView {
    pub name: Seq<char>,
    pub value: Seq<char>,
    pub x: i64,
    pub y: i64,
    pub rotation: i64,
    pub hidden: bool,
}

impl View for NewProperty {
    type V = NewPropertyView;

    open spec fn view(&self) -> NewPropertyView {
        NewPropertyView {
            name: self.name@,
            value: self.value@,
            x: self.x,
            y: self.y,
            rotation: self.rotation,
            hidden: self.hidden,
        }
    }
}

/// The contents of a list of properties.
pub open spec fn new_property_views(list: Seq<NewProperty>) -> Seq<NewPropertyView> {
    Seq::new(list.len(), |i: int| list[i]@)
}

/// A property at a place.
pub open spec fn property_at(
    name: Seq<char>,
    value: Seq<char>,
    at: (i64, i64, i64),
    hidden: bool,
) -> NewPropertyView {
    NewPropertyView { name, value, x: at.0, y: at.1, rotation: at.2, hidden }
}

fn write_property(name: &str, value: &str, at: (i64, i64, i64), hidden: bool) -> (res: NewProperty)
    ensures
        res@ == property_at(name@, value@, at, hidden),
{
    NewProperty {
        name: owned(name),
        value: owned(value),
        x: at.0,
        y: at.1,
        rotation: at.2,
        hidden,
    }
}

/// The properties that a placed symbol gets. KiCad reads them from the placed
/// symbol and not from the library, so every one is written. The reference and
/// the value stand where the library anchors them; the rest is hidden at the
/// symbol's own place.
pub fn placement_properties(
    reference: &str,
    fields: &PlacementFields,
    datasheet: &str,
    description: &str,
    hide_reference: bool,
    reference_at: (i64, i64, i64),
    value_at: (i64, i64, i64),
    x: i64,
    y: i64,
) -> (res: Vec<NewProperty>)
    ensures
        new_property_views(res@) == seq![
            property_at("Reference"@, reference@, reference_at, hide_reference),
            property_at("Value"@, fields.value@, value_at, false),
            property_at("Footprint"@, fields.footprint@, (x, y, 0), true),
            property_at("Datasheet"@, datasheet@, (x, y, 0), true),
            property_at("Description"@, description@, (x, y, 0), true),
        ],
{
    let mut list: Vec<NewProperty> = Vec::new();
    list.push(write_property("Reference", reference, reference_at, hide_reference));
    list.push(write_property("Value", fields.value.as_str(), value_at, false));
    list.push(write_property("Footprint", fields.footprint.as_str(), (x, y, 0), true));
    list.push(write_property("Datasheet", datasheet, (x, y, 0), true));
    list.push(write_property("Description", description, (x, y, 0), true));
    assert(new_property_views(list@) =~= seq![
        property_at("Reference"@, reference@, reference_at, hide_reference),
        property_at("Value"@, fields.value@, value_at, false),
        property_at("Footprint"@, fields.footprint@, (x, y, 0), true),
        property_at("Datasheet"@, datasheet@, (x, y, 0), true),
        property_at("Description"@, description@, (x, y, 0), true),
    ]);
    list
}

/// A placement as it was read back, with the project and the paths that it is
/// used under.
#[derive(PartialEq, Eq, Debug)]
pub struct PlacedReadback {
    pub component: ObservedComponent,
    pub project: String,
    pub instance_paths: Vec<String>,
}

/// The paths of a list of usages.
pub open spec fn only_paths(list: Seq<PathView>) -> Seq<Seq<char>> {
    Seq::new(list.len(), |i: int| list[i].1)
}

/// The observation of a placement, or what stands against it.
pub open spec fn placement_observed(
    path: Seq<char>,
    same_document: bool,
    committed: ReadSchematic,
    expected: ComponentTargetUnit,
) -> Result<ComponentObservation, TargetFault> {
    let reference = if expected.fields@.contains_key("Reference"@) {
        Some(expected.fields@["Reference"@]@)
    } else {
        None
    };
    if !same_document {
        Err(stale(path, "placement readback came from a different schematic"@))
    } else {
        match readback(path, same_document, committed, seq![expected.uuid@], reference) {
            Err(fault) => Err(fault),
            Ok(observation) => match units_fault(path, observation.units, seq![expected], 1) {
                Some(fault) => Err(fault),
                None => Ok(observation),
            },
        }
    }
}

/// Reads a placement back from the saved schematic. The answer comes from what
/// was read, and never from what was asked for. `instance_state` is what the
/// check of the sheet's instances found wrong, if anything.
pub fn placed_component_readback(
    path: &str,
    same_document: bool,
    committed: &ReadSchematic,
    expected: ComponentTargetUnit,
    instance_state: Option<ToolError>,
) -> (res: Result<PlacedReadback, ToolError>)
    ensures
        match placement_observed(path@, same_document, *committed, expected) {
            Err(fault) => res matches Err(error) && error@ == fault.reported(),
            Ok(observation) => if instance_state is Some {
                res matches Err(error) && error == instance_state->0
            } else if observation.units.len() == 0 || observation.units[0].instance_paths.len()
                == 0 {
                res matches Err(error) && error@ == stale(
                    committed.filepath@,
                    "placed symbol UUID '"@ + expected.uuid@
                        + "' has no project in post-write readback"@,
                ).reported()
            } else {
                res matches Ok(placed) && placed.component@ == observation && placed.project@
                    == observation.units[0].instance_paths[0].0 && texts(placed.instance_paths@)
                    == sorted_texts(only_paths(observation.units[0].instance_paths))
            },
        },
{
    if !same_document {
        let reason = owned("placement readback came from a different schematic");
        return Err(ComponentDeleteTargetError::stale(path, reason).into_result());
    }
    let mut uuids: Vec<String> = Vec::new();
    uuids.push(expected.uuid.clone());
    assert(texts(uuids@) =~= seq![expected.uuid@]);
    let component = {
        let reference: Option<&str> = match expected.fields.get("Reference") {
            Some(text) => Some(text.as_str()),
            None => None,
        };
        match component_mutation_readback_from_schematic(
            path,
            same_document,
            committed,
            &uuids,
            reference,
        ) {
            Ok(component) => component,
            Err(error) => {
                return Err(error);
            },
        }
    };
    let missing = concat3(
        "placed symbol UUID '",
        expected.uuid.as_str(),
        "' has no project in post-write readback",
    );
    let mut targets: Vec<ComponentTargetUnit> = Vec::new();
    targets.push(expected);
    assert(targets@ =~= seq![expected]);
    match verify_component_expectations(path, &component, &targets) {
        Ok(_) => {},
        Err(error) => {
            return Err(error);
        },
    }
    if let Some(error) = instance_state {
        return Err(error);
    }
    let ghost units = component@.units;
    assert(units.len() == component.units@.len());
    if component.units.len() == 0 || component.units[0].instance_paths.len() == 0 {
        assert(component.units@.len() > 0 ==> units[0] == component.units@[0]@);
        return Err(
            ComponentDeleteTargetError::stale(committed.filepath.as_str(), missing).into_result(),
        );
    }
    assert(units[0] == component.units@[0]@);
    let used = &component.units[0].instance_paths;
    let ghost views = path_views(used@);
    let project = used[0].0.clone();
    assert(views[0].0 == project@);
    let mut paths: Vec<String> = Vec::new();
    let mut i: usize = 0;
    assert(texts(paths@) =~= only_paths(views).take(0));
    while i < used.len()
        invariant
            i <= used@.len(),
            views == path_views(used@),
            texts(paths@) == only_paths(views).take(i as int),
        decreases used@.len() - i,
    {
        let ghost before = texts(paths@);
        paths.push(used[i].1.clone());
        assert(texts(paths@) =~= before.push(only_paths(views)[i as int]));
        assert(only_paths(views).take(i + 1) =~= only_paths(views).take(i as int).push(
            only_paths(views)[i as int],
        ));
        i += 1;
    }
    assert(only_paths(views).take(i as int) =~= only_paths(views));
    let instance_paths = sort_texts(&paths);
    Ok(PlacedReadback { component, project, instance_paths })
}

} // verus!
