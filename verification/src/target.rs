//! Binding a change to the units of a component in a schematic file.

use crate::decimal::{number_text, write_number};
use crate::deletion::{item_views, stale, IndexedSchematicItem, ItemView, PlacedInstance};
use crate::intent::{ComponentTarget, ComponentTargetUnit};
use crate::lists::{ints, positions_where};
use crate::netlist::texts_of;
use crate::sexp::{node_refs, Sexp, SexpNode};
use crate::symbol::{
    checked_instance_paths, path_views, paths_text, records_fault, same_paths, usage, write_paths,
    PathView, SheetSymbol,
};
use crate::text::{
    clone_opt, concat3, concat5, opt_text, owned, text_before, text_eq, text_less, texts,
};
use crate::text_map::TextMap;
use crate::tool_error::{ComponentDeleteTargetError, TargetFault};
use vstd::prelude::*;
use vstd::string::*;

verus! {

/// A placed unit with what the text of its item parses to: its tree, and the
/// symbol that the tree describes.
#[derive(PartialEq, Eq, Debug)]
pub struct SourceInstance {
    pub instance: PlacedInstance,
    pub node: Result<SexpNode, String>,
    pub symbol: Result<SheetSymbol, String>,
}

/// The content of a [`ComponentTargetUnit`].
pub struct TargetUnitView {
    pub uuid: Seq<char>,
    pub unit: u32,
    pub fields: Map<Seq<char>, Seq<char>>,
    pub lib_id: Seq<char>,
    pub x: i64,
    pub y: i64,
    pub rotation: i64,
    pub mirror: Option<Seq<char>>,
    pub instances: Seq<PathView>,
}

/// The content of a unit of a target.
pub open spec fn target_unit_view(unit: ComponentTargetUnit) -> TargetUnitView {
    TargetUnitView {
        uuid: unit.uuid@,
        unit: unit.unit,
        fields: texts_of(unit.fields@),
        lib_id: unit.lib_id@,
        x: unit.x,
        y: unit.y,
        rotation: unit.rotation,
        mirror: opt_text(unit.mirror),
        instances: path_views(unit.instances@),
    }
}

/// The contents of a list of units.
pub open spec fn target_unit_views(list: Seq<ComponentTargetUnit>) -> Seq<TargetUnitView> {
    Seq::new(list.len(), |i: int| target_unit_view(list[i]))
}

/// The value of a property node.
pub open spec fn node_value(property: Sexp) -> Seq<char> {
    match property.text_at(2) {
        Some(value) => value,
        None => Seq::empty(),
    }
}

/// The fields of these property nodes; one without a name is left out, and a
/// name that occurs twice is a fault.
pub open spec fn node_fields(
    reference: Seq<char>,
    unit: u32,
    uuid: Seq<char>,
    properties: Seq<Sexp>,
) -> Result<Map<Seq<char>, Seq<char>>, TargetFault>
    decreases properties.len(),
{
    if properties.len() == 0 {
        Ok(Map::empty())
    } else {
        match node_fields(reference, unit, uuid, properties.drop_last()) {
            Err(fault) => Err(fault),
            Ok(fields) => match properties.last().text_at(1) {
                None => Ok(fields),
                Some(name) => if fields.contains_key(name) {
                    Err(
                        TargetFault::Ambiguous {
                            target: "component "@ + reference + " unit "@ + number_text(
                                unit as nat,
                            ) + " field "@ + name,
                            candidates: seq![uuid, uuid],
                        },
                    )
                } else {
                    Ok(fields.insert(name, node_value(properties.last())))
                },
            },
        }
    }
}

/// What is wrong with these instance paths.
pub open spec fn paths_fault(
    path: Seq<char>,
    reference: Seq<char>,
    uuid: Seq<char>,
    paths: Seq<Sexp>,
) -> Option<TargetFault>
    decreases paths.len(),
{
    if paths.len() == 0 {
        None
    } else {
        match paths_fault(path, reference, uuid, paths.drop_last()) {
            Some(fault) => Some(fault),
            None => match paths.last().value_of("reference"@) {
                None => Some(
                    stale(
                        path,
                        "component "@ + reference + " UUID "@ + uuid
                            + " has an instance path without a reference"@,
                    ),
                ),
                Some(named) => if named == reference {
                    None
                } else {
                    Some(
                        stale(
                            path,
                            "component "@ + reference + " UUID "@ + uuid
                                + " has an instance path naming "@ + named,
                        ),
                    )
                },
            },
        }
    }
}

/// What is wrong with the instance paths of these projects.
pub open spec fn projects_fault(
    path: Seq<char>,
    reference: Seq<char>,
    uuid: Seq<char>,
    projects: Seq<Sexp>,
) -> Option<TargetFault>
    decreases projects.len(),
{
    if projects.len() == 0 {
        None
    } else {
        match projects_fault(path, reference, uuid, projects.drop_last()) {
            Some(fault) => Some(fault),
            None => paths_fault(path, reference, uuid, projects.last().all("path"@)),
        }
    }
}

/// What is wrong with the instance paths of a symbol.
pub open spec fn usages_fault(
    path: Seq<char>,
    reference: Seq<char>,
    uuid: Seq<char>,
    usages: Seq<Sexp>,
) -> Option<TargetFault>
    decreases usages.len(),
{
    if usages.len() == 0 {
        None
    } else {
        match usages_fault(path, reference, uuid, usages.drop_last()) {
            Some(fault) => Some(fault),
            None => projects_fault(path, reference, uuid, usages.last().all("project"@)),
        }
    }
}

/// The unit of a target that a placed unit gives, or what stands against it.
pub open spec fn target_unit(
    path: Seq<char>,
    reference: Seq<char>,
    items: Map<Seq<char>, ItemView>,
    source: SourceInstance,
) -> Result<TargetUnitView, TargetFault> {
    let instance = source.instance;
    match instance.uuid {
        None => Err(
            stale(
                path,
                "component "@ + reference + " unit "@ + number_text(instance.unit as nat)
                    + " has no UUID"@,
            ),
        ),
        Some(own) => {
            let uuid = own@;
            let name = "component "@ + reference + " UUID "@ + uuid;
            if !items.contains_key(uuid) {
                Err(stale(path, name + " is not a top-level item"@))
            } else if items[uuid].kind != "symbol"@ {
                Err(stale(path, name + " identifies "@ + items[uuid].kind))
            } else {
                match source.node {
                    Err(message) => Err(stale(path, message@)),
                    Ok(node) => {
                        let fields = node_fields(
                            reference,
                            instance.unit,
                            uuid,
                            node@.all("property"@),
                        );
                        let used = usages_fault(path, reference, uuid, node@.all("instances"@));
                        if fields is Err {
                            Err(fields->Err_0)
                        } else if used is Some {
                            Err(used->0)
                        } else {
                            match source.symbol {
                                Err(message) => Err(stale(path, message@)),
                                Ok(symbol) => match records_fault(
                                    path,
                                    symbol,
                                    symbol.instances@.len(),
                                ) {
                                    Some(fault) => Err(fault),
                                    None => Ok(
                                        TargetUnitView {
                                            uuid,
                                            unit: instance.unit,
                                            fields: fields->Ok_0,
                                            lib_id: instance.lib_id@,
                                            x: instance.x,
                                            y: instance.y,
                                            rotation: instance.rotation,
                                            mirror: opt_text(symbol.mirror),
                                            instances: usage(symbol),
                                        },
                                    ),
                                },
                            }
                        }
                    },
                }
            }
        },
    }
}

/// The units that the first `n` of these positions give, or the first fault.
pub open spec fn target_units(
    path: Seq<char>,
    reference: Seq<char>,
    items: Map<Seq<char>, ItemView>,
    sources: Seq<SourceInstance>,
    at: Seq<int>,
    n: nat,
) -> Result<Seq<TargetUnitView>, TargetFault>
    decreases n,
{
    if n == 0 {
        Ok(Seq::empty())
    } else {
        match target_units(path, reference, items, sources, at, (n - 1) as nat) {
            Err(fault) => Err(fault),
            Ok(list) => match target_unit(path, reference, items, sources[at[n - 1]]) {
                Err(fault) => Err(fault),
                Ok(unit) => Ok(list.push(unit)),
            },
        }
    }
}

/// The positions of the placed units of this reference.
pub open spec fn placed_units(sources: Seq<SourceInstance>, reference: Seq<char>) -> Seq<int> {
    positions_where(|i: int| sources[i].instance.reference@ == reference, sources.len())
}

/// The identifiers of the units of this number.
pub open spec fn uuids_with_unit(units: Seq<TargetUnitView>, unit: u32) -> Seq<Seq<char>>
    decreases units.len(),
{
    if units.len() == 0 {
        Seq::empty()
    } else {
        let rest = uuids_with_unit(units.drop_last(), unit);
        if units.last().unit == unit {
            rest.push(units.last().uuid)
        } else {
            rest
        }
    }
}

/// The number occurs more than once, and no smaller one does.
pub open spec fn least_repeated_unit(units: Seq<TargetUnitView>, unit: u32) -> bool {
    &&& uuids_with_unit(units, unit).len() > 1
    &&& forall|u: u32| #[trigger] uuids_with_unit(units, u).len() > 1 ==> unit <= u
}

/// Some unit is used elsewhere than the first.
pub open spec fn used_elsewhere(units: Seq<TargetUnitView>) -> bool {
    exists|i: int| 0 <= i < units.len() && (#[trigger] units[i]).instances != units[0].instances
}

/// The first unit comes before the second: by number, then by identifier.
pub open spec fn unit_before(a: TargetUnitView, b: TargetUnitView) -> bool {
    a.unit < b.unit || (a.unit == b.unit && text_before(a.uuid, b.uuid))
}

/// Puts a unit into an ordered list, behind those that it does not come before.
pub open spec fn placed_unit(list: Seq<TargetUnitView>, unit: TargetUnitView) -> Seq<TargetUnitView>
    decreases list.len(),
{
    if list.len() == 0 || !unit_before(unit, list.last()) {
        list.push(unit)
    } else {
        placed_unit(list.drop_last(), unit).push(list.last())
    }
}

/// The units in order.
pub open spec fn ordered_units(units: Seq<TargetUnitView>) -> Seq<TargetUnitView>
    decreases units.len(),
{
    if units.len() == 0 {
        Seq::empty()
    } else {
        placed_unit(ordered_units(units.drop_last()), units.last())
    }
}

/// How each unit is used, for a message.
pub open spec fn usage_texts(units: Seq<TargetUnitView>) -> Seq<Seq<char>> {
    Seq::new(units.len(), |i: int| units[i].uuid + ": "@ + paths_text(units[i].instances))
}

/// The outcome of binding a change to a component.
pub open spec fn binding_outcome(
    path: Seq<char>,
    reference: Seq<char>,
    items: Map<Seq<char>, ItemView>,
    sources: Seq<SourceInstance>,
    res: Result<ComponentTarget, ComponentDeleteTargetError>,
) -> bool {
    let at = placed_units(sources, reference);
    let units = target_units(path, reference, items, sources, at, at.len());
    if at.len() == 0 {
        res matches Err(error) && error@ == stale(
            path,
            "component "@ + reference + " is not present"@,
        )
    } else if units is Err {
        res matches Err(error) && error@ == units->Err_0
    } else if exists|u: u32| #[trigger] uuids_with_unit(units->Ok_0, u).len() > 1 {
        res matches Err(error) && exists|u: u32| #[trigger]
            least_repeated_unit(units->Ok_0, u) && error@ == (TargetFault::Ambiguous {
                target: "component "@ + reference + " unit "@ + number_text(u as nat),
                candidates: uuids_with_unit(units->Ok_0, u),
            })
    } else if used_elsewhere(units->Ok_0) {
        res matches Err(error) && error@ == (TargetFault::Ambiguous {
            target: "component "@ + reference + " hierarchy instances"@,
            candidates: usage_texts(units->Ok_0),
        })
    } else {
        res matches Ok(target) && target.reference@ == reference && target_unit_views(target.units@)
            == ordered_units(units->Ok_0)
    }
}

proof fn lemma_node_fields_stay(
    reference: Seq<char>,
    unit: u32,
    uuid: Seq<char>,
    all: Seq<Sexp>,
    n: int,
)
    requires
        0 <= n <= all.len(),
        node_fields(reference, unit, uuid, all.take(n)) is Err,
    ensures
        node_fields(reference, unit, uuid, all) == node_fields(reference, unit, uuid, all.take(n)),
    decreases all.len() - n,
{
    if n == all.len() {
        assert(all.take(n) =~= all);
    } else {
        assert(all.take(n + 1).drop_last() =~= all.take(n));
        lemma_node_fields_stay(reference, unit, uuid, all, n + 1);
    }
}

fn read_node_fields(reference: &str, unit: u32, uuid: &str, node: &SexpNode) -> (res: Result<
    TextMap<String>,
    ComponentDeleteTargetError,
>)
    ensures
        match node_fields(reference@, unit, uuid@, node@.all("property"@)) {
            Ok(fields) => res matches Ok(map) && texts_of(map@) == fields,
            Err(fault) => res matches Err(error) && error@ == fault,
        },
{
    let properties = node.find_all("property");
    let ghost all = node@.all("property"@);
    assert(node_refs(properties@).len() == properties@.len());
    let mut fields: TextMap<String> = TextMap::new();
    let mut i: usize = 0;
    assert(all.take(0) =~= Seq::empty());
    assert(texts_of(fields@) =~= Map::empty());
    while i < properties.len()
        invariant
            i <= properties@.len(),
            all == node_refs(properties@),
            all == node@.all("property"@),
            node_fields(reference@, unit, uuid@, all.take(i as int)) == Ok::<_, TargetFault>(
                texts_of(fields@),
            ),
        decreases properties@.len() - i,
    {
        let property = properties[i];
        let ghost before = fields@;
        proof {
            assert(all.take(i + 1).drop_last() =~= all.take(i as int));
            assert(all.take(i + 1).last() == property@);
        }
        if let Some(name) = property.str_at(1) {
            assert(texts_of(before).contains_key(name@) <==> before.contains_key(name@));
            if fields.contains_key(name) {
                let mut target = concat5(
                    "component ",
                    reference,
                    " unit ",
                    write_number(unit as usize).as_str(),
                    " field ",
                );
                target.append(name);
                let mut candidates: Vec<String> = Vec::new();
                candidates.push(owned(uuid));
                candidates.push(owned(uuid));
                proof {
                    assert(texts(candidates@) =~= seq![uuid@, uuid@]);
                    lemma_node_fields_stay(reference@, unit, uuid@, all, i + 1);
                }
                return Err(ComponentDeleteTargetError::Ambiguous { target, candidates });
            }
            let value = match property.str_at(2) {
                Some(text) => owned(text),
                None => String::new(),
            };
            assert(value@ =~= node_value(property@));
            let ghost held = value@;
            fields.insert(owned(name), value);
            assert(texts_of(fields@) =~= texts_of(before).insert(name@, held));
        }
        i += 1;
    }
    assert(all.take(i as int) =~= all);
    Ok(fields)
}

proof fn lemma_paths_stay(
    path: Seq<char>,
    reference: Seq<char>,
    uuid: Seq<char>,
    all: Seq<Sexp>,
    n: int,
)
    requires
        0 <= n <= all.len(),
        paths_fault(path, reference, uuid, all.take(n)) is Some,
    ensures
        paths_fault(path, reference, uuid, all) == paths_fault(path, reference, uuid, all.take(n)),
    decreases all.len() - n,
{
    if n == all.len() {
        assert(all.take(n) =~= all);
    } else {
        assert(all.take(n + 1).drop_last() =~= all.take(n));
        lemma_paths_stay(path, reference, uuid, all, n + 1);
    }
}

proof fn lemma_projects_stay(
    path: Seq<char>,
    reference: Seq<char>,
    uuid: Seq<char>,
    all: Seq<Sexp>,
    n: int,
)
    requires
        0 <= n <= all.len(),
        projects_fault(path, reference, uuid, all.take(n)) is Some,
    ensures
        projects_fault(path, reference, uuid, all) == projects_fault(
            path,
            reference,
            uuid,
            all.take(n),
        ),
    decreases all.len() - n,
{
    if n == all.len() {
        assert(all.take(n) =~= all);
    } else {
        assert(all.take(n + 1).drop_last() =~= all.take(n));
        lemma_projects_stay(path, reference, uuid, all, n + 1);
    }
}

proof fn lemma_usages_stay(
    path: Seq<char>,
    reference: Seq<char>,
    uuid: Seq<char>,
    all: Seq<Sexp>,
    n: int,
)
    requires
        0 <= n <= all.len(),
        usages_fault(path, reference, uuid, all.take(n)) is Some,
    ensures
        usages_fault(path, reference, uuid, all) == usages_fault(
            path,
            reference,
            uuid,
            all.take(n),
        ),
    decreases all.len() - n,
{
    if n == all.len() {
        assert(all.take(n) =~= all);
    } else {
        assert(all.take(n + 1).drop_last() =~= all.take(n));
        lemma_usages_stay(path, reference, uuid, all, n + 1);
    }
}

fn check_paths(path: &str, reference: &str, uuid: &str, project: &SexpNode) -> (res: Option<
    ComponentDeleteTargetError,
>)
    ensures
        match res {
            Some(error) => paths_fault(path@, reference@, uuid@, project@.all("path"@)) == Some(
                error@,
            ),
            None => paths_fault(path@, reference@, uuid@, project@.all("path"@)) is None,
        },
{
    let paths = project.find_all("path");
    let ghost all = project@.all("path"@);
    assert(node_refs(paths@).len() == paths@.len());
    let mut i: usize = 0;
    assert(all.take(0) =~= Seq::empty());
    while i < paths.len()
        invariant
            i <= paths@.len(),
            all == node_refs(paths@),
            all == project@.all("path"@),
            paths_fault(path@, reference@, uuid@, all.take(i as int)) is None,
        decreases paths@.len() - i,
    {
        proof {
            assert(all.take(i + 1).drop_last() =~= all.take(i as int));
            assert(all.take(i + 1).last() == paths@[i as int]@);
        }
        match paths[i].find_str("reference") {
            None => {
                let reason = concat5(
                    "component ",
                    reference,
                    " UUID ",
                    uuid,
                    " has an instance path without a reference",
                );
                proof {
                    lemma_paths_stay(path@, reference@, uuid@, all, i + 1);
                }
                return Some(ComponentDeleteTargetError::stale(path, reason));
            },
            Some(named) => {
                if !text_eq(named, reference) {
                    let mut reason = concat5(
                        "component ",
                        reference,
                        " UUID ",
                        uuid,
                        " has an instance path naming ",
                    );
                    reason.append(named);
                    proof {
                        lemma_paths_stay(path@, reference@, uuid@, all, i + 1);
                    }
                    return Some(ComponentDeleteTargetError::stale(path, reason));
                }
            },
        }
        i += 1;
    }
    assert(all.take(i as int) =~= all);
    None
}

fn check_projects(path: &str, reference: &str, uuid: &str, usage_node: &SexpNode) -> (res: Option<
    ComponentDeleteTargetError,
>)
    ensures
        match res {
            Some(error) => projects_fault(
                path@,
                reference@,
                uuid@,
                usage_node@.all("project"@),
            ) == Some(error@),
            None => projects_fault(path@, reference@, uuid@, usage_node@.all("project"@)) is None,
        },
{
    let projects = usage_node.find_all("project");
    let ghost all = usage_node@.all("project"@);
    assert(node_refs(projects@).len() == projects@.len());
    let mut i: usize = 0;
    assert(all.take(0) =~= Seq::empty());
    while i < projects.len()
        invariant
            i <= projects@.len(),
            all == node_refs(projects@),
            all == usage_node@.all("project"@),
            projects_fault(path@, reference@, uuid@, all.take(i as int)) is None,
        decreases projects@.len() - i,
    {
        proof {
            assert(all.take(i + 1).drop_last() =~= all.take(i as int));
            assert(all.take(i + 1).last() == projects@[i as int]@);
        }
        if let Some(error) = check_paths(path, reference, uuid, projects[i]) {
            proof {
                lemma_projects_stay(path@, reference@, uuid@, all, i + 1);
            }
            return Some(error);
        }
        i += 1;
    }
    assert(all.take(i as int) =~= all);
    None
}

fn check_usages(path: &str, reference: &str, uuid: &str, node: &SexpNode) -> (res: Option<
    ComponentDeleteTargetError,
>)
    ensures
        match res {
            Some(error) => usages_fault(path@, reference@, uuid@, node@.all("instances"@)) == Some(
                error@,
            ),
            None => usages_fault(path@, reference@, uuid@, node@.all("instances"@)) is None,
        },
{
    let usages = node.find_all("instances");
    let ghost all = node@.all("instances"@);
    assert(node_refs(usages@).len() == usages@.len());
    let mut i: usize = 0;
    assert(all.take(0) =~= Seq::empty());
    while i < usages.len()
        invariant
            i <= usages@.len(),
            all == node_refs(usages@),
            all == node@.all("instances"@),
            usages_fault(path@, reference@, uuid@, all.take(i as int)) is None,
        decreases usages@.len() - i,
    {
        proof {
            assert(all.take(i + 1).drop_last() =~= all.take(i as int));
            assert(all.take(i + 1).last() == usages@[i as int]@);
        }
        if let Some(error) = check_projects(path, reference, uuid, usages[i]) {
            proof {
                lemma_usages_stay(path@, reference@, uuid@, all, i + 1);
            }
            return Some(error);
        }
        i += 1;
    }
    assert(all.take(i as int) =~= all);
    None
}

fn bind_unit(
    path: &str,
    reference: &str,
    items: &TextMap<IndexedSchematicItem>,
    source: &SourceInstance,
) -> (res: Result<ComponentTargetUnit, ComponentDeleteTargetError>)
    ensures
        match target_unit(path@, reference@, item_views(items@), *source) {
            Ok(view) => res matches Ok(unit) && target_unit_view(unit) == view,
            Err(fault) => res matches Err(error) && error@ == fault,
        },
{
    let instance = &source.instance;
    let uuid = match &instance.uuid {
        Some(uuid) => uuid,
        None => {
            let reason = concat5(
                "component ",
                reference,
                " unit ",
                write_number(instance.unit as usize).as_str(),
                " has no UUID",
            );
            return Err(ComponentDeleteTargetError::stale(path, reason));
        },
    };
    match items.get(uuid.as_str()) {
        None => {
            let reason = concat5(
                "component ",
                reference,
                " UUID ",
                uuid.as_str(),
                " is not a top-level item",
            );
            return Err(ComponentDeleteTargetError::stale(path, reason));
        },
        Some(item) => {
            if !text_eq(item.kind.as_str(), "symbol") {
                let mut reason = concat5(
                    "component ",
                    reference,
                    " UUID ",
                    uuid.as_str(),
                    " identifies ",
                );
                reason.append(item.kind.as_str());
                return Err(ComponentDeleteTargetError::stale(path, reason));
            }
        },
    }
    let node = match &source.node {
        Ok(node) => node,
        Err(message) => {
            return Err(ComponentDeleteTargetError::stale(path, message.clone()));
        },
    };
    let fields = match read_node_fields(reference, instance.unit, uuid.as_str(), node) {
        Ok(fields) => fields,
        Err(error) => {
            return Err(error);
        },
    };
    if let Some(error) = check_usages(path, reference, uuid.as_str(), node) {
        return Err(error);
    }
    let symbol = match &source.symbol {
        Ok(symbol) => symbol,
        Err(message) => {
            return Err(ComponentDeleteTargetError::stale(path, message.clone()));
        },
    };
    let instances = match checked_instance_paths(path, symbol) {
        Ok(list) => list,
        Err(error) => {
            return Err(error);
        },
    };
    Ok(
        ComponentTargetUnit {
            uuid: uuid.clone(),
            unit: instance.unit,
            fields,
            lib_id: instance.lib_id.clone(),
            x: instance.x,
            y: instance.y,
            rotation: instance.rotation,
            mirror: clone_opt(&symbol.mirror),
            instances,
        },
    )
}

fn find_placed(sources: &Vec<SourceInstance>, reference: &str) -> (res: Vec<usize>)
    ensures
        ints(res@) == placed_units(sources@, reference@),
        forall|i: int| 0 <= i < res@.len() ==> (#[trigger] res@[i]) < sources@.len(),
{
    let ghost holds = |i: int| sources@[i].instance.reference@ == reference@;
    let mut res: Vec<usize> = Vec::new();
    let mut i: usize = 0;
    assert(ints(res@) =~= positions_where(holds, 0));
    while i < sources.len()
        invariant
            i <= sources@.len(),
            holds == (|i: int| sources@[i].instance.reference@ == reference@),
            ints(res@) == positions_where(holds, i as nat),
            forall|j: int| 0 <= j < res@.len() ==> (#[trigger] res@[j]) < sources@.len(),
        decreases sources@.len() - i,
    {
        let ghost before = ints(res@);
        assert(holds(i as int) == (sources@[i as int].instance.reference@ == reference@));
        if text_eq(sources[i].instance.reference.as_str(), reference) {
            res.push(i);
            assert(ints(res@) =~= before.push(i as int));
        }
        i += 1;
    }
    res
}

proof fn lemma_units_stay(
    path: Seq<char>,
    reference: Seq<char>,
    items: Map<Seq<char>, ItemView>,
    sources: Seq<SourceInstance>,
    at: Seq<int>,
    n: nat,
)
    requires
        n <= at.len(),
        target_units(path, reference, items, sources, at, n) is Err,
    ensures
        target_units(path, reference, items, sources, at, at.len()) == target_units(
            path,
            reference,
            items,
            sources,
            at,
            n,
        ),
    decreases at.len() - n,
{
    if n < at.len() {
        lemma_units_stay(path, reference, items, sources, at, n + 1);
    }
}

fn bind_units(
    path: &str,
    reference: &str,
    items: &TextMap<IndexedSchematicItem>,
    sources: &Vec<SourceInstance>,
    at: &Vec<usize>,
) -> (res: Result<Vec<ComponentTargetUnit>, ComponentDeleteTargetError>)
    requires
        forall|i: int| 0 <= i < at@.len() ==> (#[trigger] at@[i]) < sources@.len(),
    ensures
        match target_units(
            path@,
            reference@,
            item_views(items@),
            sources@,
            ints(at@),
            at@.len(),
        ) {
            Ok(list) => res matches Ok(units) && target_unit_views(units@) == list,
            Err(fault) => res matches Err(error) && error@ == fault,
        },
{
    let ghost all = ints(at@);
    let ghost views = item_views(items@);
    let mut units: Vec<ComponentTargetUnit> = Vec::new();
    let mut i: usize = 0;
    assert(target_unit_views(units@) =~= Seq::empty());
    while i < at.len()
        invariant
            i <= at@.len(),
            all == ints(at@),
            views == item_views(items@),
            forall|i: int| 0 <= i < at@.len() ==> (#[trigger] at@[i]) < sources@.len(),
            target_units(path@, reference@, views, sources@, all, i as nat) == Ok::<
                _,
                TargetFault,
            >(target_unit_views(units@)),
        decreases at@.len() - i,
    {
        assert(all[i as int] == at@[i as int]);
        match bind_unit(path, reference, items, &sources[at[i]]) {
            Ok(unit) => {
                let ghost before = target_unit_views(units@);
                let ghost view = target_unit_view(unit);
                units.push(unit);
                assert(target_unit_views(units@) =~= before.push(view));
            },
            Err(error) => {
                proof {
                    lemma_units_stay(path@, reference@, views, sources@, all, (i + 1) as nat);
                }
                return Err(error);
            },
        }
        i += 1;
    }
    Ok(units)
}

fn list_unit(units: &Vec<ComponentTargetUnit>, unit: u32) -> (res: Vec<String>)
    ensures
        texts(res@) == uuids_with_unit(target_unit_views(units@), unit),
{
    let ghost all = target_unit_views(units@);
    let mut res: Vec<String> = Vec::new();
    let mut i: usize = 0;
    assert(all.take(0) =~= Seq::empty());
    assert(texts(res@) =~= Seq::empty());
    while i < units.len()
        invariant
            i <= units@.len(),
            all == target_unit_views(units@),
            texts(res@) == uuids_with_unit(all.take(i as int), unit),
        decreases units@.len() - i,
    {
        let ghost before = texts(res@);
        proof {
            assert(all.take(i + 1).drop_last() =~= all.take(i as int));
            assert(all.take(i + 1).last() == target_unit_view(units@[i as int]));
        }
        if units[i].unit == unit {
            res.push(units[i].uuid.clone());
            assert(texts(res@) =~= before.push(units@[i as int].uuid@));
        }
        i += 1;
    }
    assert(all.take(i as int) =~= all);
    res
}

proof fn lemma_unit_occurs(units: Seq<TargetUnitView>, unit: u32) -> (i: int)
    requires
        uuids_with_unit(units, unit).len() > 0,
    ensures
        0 <= i < units.len(),
        units[i].unit == unit,
    decreases units.len(),
{
    if units.last().unit == unit {
        units.len() - 1
    } else {
        lemma_unit_occurs(units.drop_last(), unit)
    }
}

fn find_repeated(units: &Vec<ComponentTargetUnit>) -> (res: Option<u32>)
    ensures
        match res {
            Some(unit) => least_repeated_unit(target_unit_views(units@), unit),
            None => forall|u: u32| #[trigger]
                uuids_with_unit(target_unit_views(units@), u).len() <= 1,
        },
{
    let ghost all = target_unit_views(units@);
    let mut least: Option<u32> = None;
    let mut i: usize = 0;
    while i < units.len()
        invariant
            i <= units@.len(),
            all == target_unit_views(units@),
            least matches Some(unit) ==> uuids_with_unit(all, unit).len() > 1,
            forall|j: int|
                0 <= j < i && uuids_with_unit(all, (#[trigger] all[j]).unit).len() > 1 ==> (
                least matches Some(unit) && unit <= all[j].unit),
        decreases units@.len() - i,
    {
        let unit: u32 = units[i].unit;
        assert(all[i as int].unit == unit);
        let uuids = list_unit(units, unit);
        assert(texts(uuids@).len() == uuids@.len());
        if uuids.len() > 1 {
            let better: bool = match least {
                Some(found) => unit < found,
                None => true,
            };
            if better {
                least = Some(unit);
            }
        }
        i += 1;
    }
    proof {
        assert forall|u: u32| #[trigger] uuids_with_unit(all, u).len() > 1 implies (least matches
            Some(unit) && unit <= u) by {
            let j = lemma_unit_occurs(all, u);
            assert(all[j].unit == u);
        }
    }
    least
}

fn find_elsewhere(units: &Vec<ComponentTargetUnit>) -> (res: bool)
    ensures
        res == used_elsewhere(target_unit_views(units@)),
{
    let ghost all = target_unit_views(units@);
    let mut i: usize = 0;
    while i < units.len()
        invariant
            i <= units@.len(),
            all == target_unit_views(units@),
            forall|j: int| 0 <= j < i ==> (#[trigger] all[j]).instances == all[0].instances,
        decreases units@.len() - i,
    {
        let same = same_paths(&units[i].instances, &units[0].instances);
        assert(all[i as int].instances == path_views(units@[i as int].instances@));
        assert(all[0].instances == path_views(units@[0].instances@));
        if !same {
            return true;
        }
        i += 1;
    }
    false
}

fn list_unit_usages(units: &Vec<ComponentTargetUnit>) -> (res: Vec<String>)
    ensures
        texts(res@) == usage_texts(target_unit_views(units@)),
{
    let ghost all = usage_texts(target_unit_views(units@));
    let mut res: Vec<String> = Vec::new();
    let mut i: usize = 0;
    assert(texts(res@) =~= all.take(0));
    while i < units.len()
        invariant
            i <= units@.len(),
            all == usage_texts(target_unit_views(units@)),
            texts(res@) == all.take(i as int),
        decreases units@.len() - i,
    {
        let ghost before = texts(res@);
        let unit = &units[i];
        let text = concat3(unit.uuid.as_str(), ": ", write_paths(&unit.instances).as_str());
        res.push(text);
        assert(texts(res@) =~= before.push(all[i as int]));
        assert(all.take(i + 1) =~= all.take(i as int).push(all[i as int]));
        i += 1;
    }
    assert(all.take(i as int) =~= all);
    res
}

fn comes_before(a: &ComponentTargetUnit, b: &ComponentTargetUnit) -> (res: bool)
    ensures
        res == unit_before(target_unit_view(*a), target_unit_view(*b)),
{
    a.unit < b.unit || (a.unit == b.unit && text_less(a.uuid.as_str(), b.uuid.as_str()))
}

fn place_unit(list: &mut Vec<ComponentTargetUnit>, unit: ComponentTargetUnit)
    ensures
        target_unit_views(final(list)@) == placed_unit(
            target_unit_views(old(list)@),
            target_unit_view(unit),
        ),
{
    let ghost all = target_unit_views(list@);
    let ghost own = target_unit_view(unit);
    let mut at: usize = list.len();
    assert(all.take(at as int) =~= all);
    assert(placed_unit(all, own) + all.skip(at as int) =~= placed_unit(all, own));
    while at > 0 && comes_before(&unit, &list[at - 1])
        invariant
            at <= list@.len(),
            all == target_unit_views(list@),
            own == target_unit_view(unit),
            placed_unit(all, own) == placed_unit(all.take(at as int), own) + all.skip(at as int),
        decreases at,
    {
        proof {
            let head = all.take(at as int);
            assert(head.drop_last() =~= all.take(at - 1));
            assert(head.last() == all[at - 1]);
            let inner = placed_unit(all.take(at - 1), own);
            assert(inner.push(all[at - 1]) + all.skip(at as int) =~= inner + all.skip(at - 1));
        }
        at -= 1;
    }
    proof {
        let head = all.take(at as int);
        if at > 0 {
            assert(head.last() == all[at - 1]);
        }
        assert(placed_unit(head, own) == head.push(own));
    }
    list.insert(at, unit);
    assert(target_unit_views(list@) =~= all.take(at as int).push(own) + all.skip(at as int));
}

fn order_units(units: Vec<ComponentTargetUnit>) -> (res: Vec<ComponentTargetUnit>)
    ensures
        target_unit_views(res@) == ordered_units(target_unit_views(units@)),
{
    let ghost all = target_unit_views(units@);
    let mut rest = units;
    let mut reversed: Vec<ComponentTargetUnit> = Vec::new();
    let ghost total = units@.len();
    while rest.len() > 0
        invariant
            all == target_unit_views(units@),
            total == units@.len(),
            rest@ == units@.take(rest@.len() as int),
            rest@.len() + reversed@.len() == total,
            forall|i: int|
                0 <= i < reversed@.len() ==> #[trigger] reversed@[i] == units@[total - 1 - i],
        decreases rest@.len(),
    {
        let ghost before = rest@;
        let last = rest.pop();
        if let Some(unit) = last {
            assert(unit == units@[before.len() - 1]);
            reversed.push(unit);
        }
        assert(rest@ =~= units@.take(rest@.len() as int));
    }
    let mut res: Vec<ComponentTargetUnit> = Vec::new();
    let ghost mut done: int = 0;
    assert(all.take(0) =~= Seq::empty());
    assert(target_unit_views(res@) =~= Seq::empty());
    while reversed.len() > 0
        invariant
            all == target_unit_views(units@),
            total == units@.len(),
            0 <= done <= total,
            reversed@.len() == total - done,
            forall|i: int|
                0 <= i < reversed@.len() ==> #[trigger] reversed@[i] == units@[total - 1 - i],
            target_unit_views(res@) == ordered_units(all.take(done)),
        decreases reversed@.len(),
    {
        let ghost before = reversed@;
        assert(before[before.len() - 1] == units@[done]);
        let last = reversed.pop();
        if let Some(unit) = last {
            proof {
                assert(all.take(done + 1).drop_last() =~= all.take(done));
                assert(all.take(done + 1).last() == all[done]);
                assert(target_unit_view(unit) == all[done]);
            }
            place_unit(&mut res, unit);
            proof {
                done = done + 1;
            }
        }
    }
    assert(all.take(done) =~= all);
    res
}

/// Binds a change to the units of a component: all of them, each found once,
/// and all used in the same places.
pub fn component_target_from_source(
    path: &str,
    items: &TextMap<IndexedSchematicItem>,
    sources: &Vec<SourceInstance>,
    reference: &str,
) -> (res: Result<ComponentTarget, ComponentDeleteTargetError>)
    ensures
        binding_outcome(path@, reference@, item_views(items@), sources@, res),
{
    let at = find_placed(sources, reference);
    assert(ints(at@).len() == at@.len());
    if at.len() == 0 {
        let reason = concat3("component ", reference, " is not present");
        return Err(ComponentDeleteTargetError::stale(path, reason));
    }
    let units = match bind_units(path, reference, items, sources, &at) {
        Ok(units) => units,
        Err(error) => {
            return Err(error);
        },
    };
    if let Some(unit) = find_repeated(&units) {
        let mut target = concat3("component ", reference, " unit ");
        target.append(write_number(unit as usize).as_str());
        let candidates = list_unit(&units, unit);
        assert(least_repeated_unit(target_unit_views(units@), unit));
        assert(uuids_with_unit(target_unit_views(units@), unit).len() > 1);
        return Err(ComponentDeleteTargetError::Ambiguous { target, candidates });
    }
    if find_elsewhere(&units) {
        return Err(
            ComponentDeleteTargetError::Ambiguous {
                target: concat3("component ", reference, " hierarchy instances"),
                candidates: list_unit_usages(&units),
            },
        );
    }
    Ok(ComponentTarget { reference: owned(reference), units: order_units(units) })
}

} // verus!
