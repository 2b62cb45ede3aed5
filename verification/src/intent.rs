//! What a change to a component intends, and holding what was read back to it.

use crate::decimal::{number_text, write_number};
use crate::deletion::stale;
use crate::netlist::texts_of;
use crate::readback::{
    component_mutation_readback_from_schematic, readback, unit_views, ComponentObservation,
    ObservedComponent, ObservedPlacement, ObservedUnit, ReadSchematic, UnitView,
};
use crate::symbol::{clone_paths, path_views, same_paths};
use crate::text::{clone_opt, concat3, concat5, opt_text, owned, text_eq, texts};
use crate::text_map::{clone_texts, TextMap};
use crate::tool_error::{ComponentDeleteTargetError, TargetFault, ToolError};
use vstd::prelude::*;
use vstd::string::*;

verus! {

/// What one unit of a component is to be.
#[derive(PartialEq, Eq, Debug)]
pub struct ComponentTargetUnit {
    pub uuid: String,
    pub unit: u32,
    pub fields: TextMap<String>,
    pub lib_id: String,
    pub x: i64,
    pub y: i64,
    pub rotation: i64,
    pub mirror: Option<String>,
    pub instances: Vec<(String, String)>,
}

/// What a component is to be.
#[derive(PartialEq, Eq, Debug)]
pub struct ComponentTarget {
    pub reference: String,
    pub units: Vec<ComponentTargetUnit>,
}

/// Which part of a unit differs from what was intended.
pub enum Difference {
    Part { name: Seq<char> },
    Field { name: Seq<char> },
}

/// The first field of a unit, among the first `n` of its fields in order, that
/// was found with another value or not at all.
pub open spec fn first_field_off(
    target: ComponentTargetUnit,
    found: Map<Seq<char>, Seq<char>>,
    n: nat,
) -> Option<Seq<char>>
    decreases n,
{
    if n == 0 {
        None
    } else {
        match first_field_off(target, found, (n - 1) as nat) {
            Some(name) => Some(name),
            None => {
                let name = target.fields.keys()[n - 1];
                if found.contains_key(name) && found[name] == target.fields.values()[n - 1]@ {
                    None
                } else {
                    Some(name)
                }
            },
        }
    }
}

/// The first way in which a unit that was read back differs from what was
/// intended.
pub open spec fn first_difference(target: ComponentTargetUnit, unit: UnitView) -> Option<
    Difference,
> {
    let field = first_field_off(target, unit.fields, target.fields.keys().len());
    if unit.unit != target.unit {
        Some(Difference::Part { name: "unit"@ })
    } else if unit.lib_id != target.lib_id@ {
        Some(Difference::Part { name: "lib_id"@ })
    } else if unit.x != target.x {
        Some(Difference::Part { name: "x"@ })
    } else if unit.y != target.y {
        Some(Difference::Part { name: "y"@ })
    } else if unit.rotation != target.rotation {
        Some(Difference::Part { name: "rotation"@ })
    } else if unit.mirror_x != crate::readback::mirrors(target.mirror, 'x') || unit.mirror_y
        != crate::readback::mirrors(target.mirror, 'y') {
        Some(Difference::Part { name: "mirror"@ })
    } else if unit.instance_paths != path_views(target.instances@) {
        Some(Difference::Part { name: "instance_paths"@ })
    } else if field is Some {
        Some(Difference::Field { name: field->0 })
    } else {
        None
    }
}

/// The first unit of this identifier among the first `n`.
pub open spec fn find_unit(units: Seq<UnitView>, uuid: Seq<char>, n: nat) -> Option<UnitView>
    decreases n,
{
    if n == 0 {
        None
    } else {
        match find_unit(units, uuid, (n - 1) as nat) {
            Some(unit) => Some(unit),
            None => if units[n - 1].uuid == uuid {
                Some(units[n - 1])
            } else {
                None
            },
        }
    }
}

/// What stands against a unit that was intended.
pub open spec fn unit_fault(
    path: Seq<char>,
    units: Seq<UnitView>,
    target: ComponentTargetUnit,
) -> Option<TargetFault> {
    match find_unit(units, target.uuid@, units.len()) {
        None => Some(stale(path, "bound unit missing from readback"@)),
        Some(unit) => match first_difference(target, unit) {
            None => None,
            Some(Difference::Part { name }) => Some(
                stale(
                    path,
                    "observed "@ + name + " differs from bound intent for UUID "@ + target.uuid@,
                ),
            ),
            Some(Difference::Field { name }) => Some(
                stale(
                    path,
                    "observed property "@ + name + " differs from bound intent for UUID "@
                        + target.uuid@,
                ),
            ),
        },
    }
}

/// What stands against the first `n` units that were intended.
pub open spec fn units_fault(
    path: Seq<char>,
    units: Seq<UnitView>,
    targets: Seq<ComponentTargetUnit>,
    n: nat,
) -> Option<TargetFault>
    decreases n,
{
    if n == 0 {
        None
    } else {
        match units_fault(path, units, targets, (n - 1) as nat) {
            Some(fault) => Some(fault),
            None => unit_fault(path, units, targets[n - 1]),
        }
    }
}

fn find_observed_unit<'a>(units: &'a Vec<ObservedUnit>, uuid: &str) -> (res: Option<
    &'a ObservedUnit,
>)
    ensures
        match res {
            Some(unit) => find_unit(unit_views(units@), uuid@, units@.len()) == Some(unit@),
            None => find_unit(unit_views(units@), uuid@, units@.len()) is None,
        },
{
    let ghost all = unit_views(units@);
    let mut i: usize = 0;
    while i < units.len()
        invariant
            i <= units@.len(),
            all == unit_views(units@),
            find_unit(all, uuid@, i as nat) is None,
        decreases units@.len() - i,
    {
        assert(all[i as int] == units@[i as int]@);
        if text_eq(units[i].uuid.as_str(), uuid) {
            proof {
                lemma_unit_stays(all, uuid@, (i + 1) as nat);
            }
            return Some(&units[i]);
        }
        i += 1;
    }
    None
}

proof fn lemma_unit_stays(units: Seq<UnitView>, uuid: Seq<char>, n: nat)
    requires
        n <= units.len(),
        find_unit(units, uuid, n) is Some,
    ensures
        find_unit(units, uuid, units.len()) == find_unit(units, uuid, n),
    decreases units.len() - n,
{
    if n < units.len() {
        lemma_unit_stays(units, uuid, n + 1);
    }
}

fn find_field_off(target: &ComponentTargetUnit, unit: &ObservedUnit) -> (res: Option<String>)
    ensures
        opt_text(res) == first_field_off(
            *target,
            texts_of(unit.fields@),
            target.fields.keys().len(),
        ),
{
    let count: usize = target.fields.len();
    let ghost found = texts_of(unit.fields@);
    let mut i: usize = 0;
    while i < count
        invariant
            i <= count,
            count == target.fields.keys().len(),
            found == texts_of(unit.fields@),
            first_field_off(*target, found, i as nat) is None,
        decreases count - i,
    {
        let name = target.fields.key_at(i);
        let wanted = target.fields.value_at(i);
        let same: bool = match unit.fields.get(name.as_str()) {
            Some(value) => *value == *wanted,
            None => false,
        };
        if !same {
            proof {
                lemma_field_off_stays(*target, found, (i + 1) as nat);
            }
            return Some(name.clone());
        }
        i += 1;
    }
    None
}

proof fn lemma_field_off_stays(
    target: ComponentTargetUnit,
    found: Map<Seq<char>, Seq<char>>,
    n: nat,
)
    requires
        n <= target.fields.keys().len(),
        first_field_off(target, found, n) is Some,
    ensures
        first_field_off(target, found, target.fields.keys().len()) == first_field_off(
            target,
            found,
            n,
        ),
    decreases target.fields.keys().len() - n,
{
    if n < target.fields.keys().len() {
        lemma_field_off_stays(target, found, n + 1);
    }
}

fn find_part_off(target: &ComponentTargetUnit, unit: &ObservedUnit) -> (res: Option<String>)
    ensures
        match res {
            Some(name) => first_difference(*target, unit@) == Some(
                Difference::Part { name: name@ },
            ),
            None => !(first_difference(*target, unit@) matches Some(Difference::Part { .. })),
        },
{
    if unit.unit != target.unit {
        return Some(owned("unit"));
    }
    if unit.lib_id != target.lib_id {
        return Some(owned("lib_id"));
    }
    if unit.x != target.x {
        return Some(owned("x"));
    }
    if unit.y != target.y {
        return Some(owned("y"));
    }
    if unit.rotation != target.rotation {
        return Some(owned("rotation"));
    }
    if unit.mirror_x != crate::readback::has_axis(&target.mirror, 'x') || unit.mirror_y
        != crate::readback::has_axis(&target.mirror, 'y') {
        return Some(owned("mirror"));
    }
    if !same_paths(&unit.instance_paths, &target.instances) {
        return Some(owned("instance_paths"));
    }
    None
}

fn check_unit(path: &str, units: &Vec<ObservedUnit>, target: &ComponentTargetUnit) -> (res: Option<
    ComponentDeleteTargetError,
>)
    ensures
        match res {
            Some(error) => unit_fault(path@, unit_views(units@), *target) == Some(error@),
            None => unit_fault(path@, unit_views(units@), *target) is None,
        },
{
    let unit = match find_observed_unit(units, target.uuid.as_str()) {
        Some(unit) => unit,
        None => {
            return Some(
                ComponentDeleteTargetError::stale(path, owned("bound unit missing from readback")),
            );
        },
    };
    assert(unit_views(units@).len() == units@.len());
    if let Some(name) = find_part_off(target, unit) {
        let mut reason = concat3(
            "observed ",
            name.as_str(),
            " differs from bound intent for UUID ",
        );
        reason.append(target.uuid.as_str());
        return Some(ComponentDeleteTargetError::stale(path, reason));
    }
    if let Some(name) = find_field_off(target, unit) {
        let mut reason = concat3(
            "observed property ",
            name.as_str(),
            " differs from bound intent for UUID ",
        );
        reason.append(target.uuid.as_str());
        return Some(ComponentDeleteTargetError::stale(path, reason));
    }
    None
}

/// Holds the units that were read back to what was intended: the first unit
/// that is missing or differs, in its first differing part, is an error.
pub fn verify_component_expectations(
    path: &str,
    observed: &ObservedComponent,
    expected: &Vec<ComponentTargetUnit>,
) -> (res: Result<(), ToolError>)
    ensures
        match units_fault(path@, observed@.units, expected@, expected@.len()) {
            Some(fault) => res matches Err(error) && error@ == fault.reported(),
            None => res is Ok,
        },
{
    let ghost units = observed@.units;
    let mut i: usize = 0;
    while i < expected.len()
        invariant
            i <= expected@.len(),
            units == unit_views(observed.units@),
            units_fault(path@, units, expected@, i as nat) is None,
        decreases expected@.len() - i,
    {
        if let Some(error) = check_unit(path, &observed.units, &expected[i]) {
            proof {
                lemma_units_fault_stays(path@, units, expected@, (i + 1) as nat);
            }
            return Err(error.into_result());
        }
        i += 1;
    }
    Ok(())
}

proof fn lemma_units_fault_stays(
    path: Seq<char>,
    units: Seq<UnitView>,
    targets: Seq<ComponentTargetUnit>,
    n: nat,
)
    requires
        n <= targets.len(),
        units_fault(path, units, targets, n) is Some,
    ensures
        units_fault(path, units, targets, targets.len()) == units_fault(path, units, targets, n),
    decreases targets.len() - n,
{
    if n < targets.len() {
        lemma_units_fault_stays(path, units, targets, n + 1);
    }
}

/// The identifiers of the units of a target.
pub open spec fn target_uuids(units: Seq<ComponentTargetUnit>) -> Seq<Seq<char>> {
    Seq::new(units.len(), |i: int| units[i].uuid@)
}

/// The fields with others put in place of those of the same name.
pub open spec fn fields_extended(
    fields: Map<Seq<char>, Seq<char>>,
    more: Map<Seq<char>, Seq<char>>,
) -> Map<Seq<char>, Seq<char>> {
    fields.union_prefer_right(more)
}

/// The second unit is the first one with these fields put in.
pub open spec fn unit_with_fields(
    before: ComponentTargetUnit,
    after: ComponentTargetUnit,
    more: Map<Seq<char>, Seq<char>>,
) -> bool {
    &&& after.uuid@ == before.uuid@
    &&& after.unit == before.unit
    &&& texts_of(after.fields@) == fields_extended(texts_of(before.fields@), more)
    &&& after.lib_id@ == before.lib_id@
    &&& after.x == before.x
    &&& after.y == before.y
    &&& after.rotation == before.rotation
    &&& opt_text(after.mirror) == opt_text(before.mirror)
    &&& path_views(after.instances@) == path_views(before.instances@)
}

fn extend_fields(fields: &mut TextMap<String>, more: &TextMap<String>)
    ensures
        texts_of(final(fields)@) == fields_extended(texts_of(old(fields)@), texts_of(more@)),
{
    let ghost start = texts_of(fields@);
    let ghost extra = texts_of(more@);
    let count: usize = more.len();
    let mut i: usize = 0;
    proof {
        assert(texts_of(fields@) =~= start.union_prefer_right(
            extra.restrict(more.keys().take(0).to_set()),
        ));
    }
    while i < count
        invariant
            i <= count,
            count == more.keys().len(),
            extra == texts_of(more@),
            texts_of(fields@) == start.union_prefer_right(
                extra.restrict(more.keys().take(i as int).to_set()),
            ),
        decreases count - i,
    {
        let ghost before = texts_of(fields@);
        let name = more.key_at(i);
        let value = more.value_at(i);
        fields.insert(name.clone(), value.clone());
        proof {
            let (a, b) = (more.keys().take(i as int), more.keys().take(i + 1));
            assert(b =~= a.push(name@));
            assert(texts_of(fields@) =~= before.insert(name@, value@));
            assert(extra.contains_key(name@));
            assert forall|k: Seq<char>| b.to_set().contains(k) <==> (a.to_set().contains(k) || k
                == name@) by {
                if a.contains(k) {
                    assert(b[a.index_of(k)] == k);
                }
                if k == name@ {
                    assert(b[i as int] == k);
                }
            }
            assert(before.insert(name@, value@) =~= start.union_prefer_right(
                extra.restrict(b.to_set()),
            ));
        }
        i += 1;
    }
    proof {
        assert(more.keys().take(i as int) =~= more.keys());
        assert forall|k: Seq<char>| more.keys().to_set().contains(k) <==> extra.contains_key(
            k,
        ) by {
            assert(more.keys().contains(k) <==> more@.contains_key(k));
        }
        assert(extra.restrict(more.keys().to_set()) =~= extra);
    }
}

impl ComponentTarget {
    /// The target with these fields changed in every unit; a changed reference
    /// is that of the component too.
    pub fn with_fields(&self, fields: &TextMap<String>) -> (res: ComponentTarget)
        ensures
            res.reference@ == (if fields@.contains_key("Reference"@) {
                fields@["Reference"@]@
            } else {
                self.reference@
            }),
            res.units@.len() == self.units@.len(),
            forall|i: int|
                0 <= i < self.units@.len() ==> unit_with_fields(
                    self.units@[i],
                    #[trigger] res.units@[i],
                    texts_of(fields@),
                ),
    {
        let reference = match fields.get("Reference") {
            Some(reference) => reference.clone(),
            None => self.reference.clone(),
        };
        let mut units: Vec<ComponentTargetUnit> = Vec::new();
        let mut i: usize = 0;
        while i < self.units.len()
            invariant
                i <= self.units@.len(),
                units@.len() == i,
                forall|j: int|
                    0 <= j < i ==> unit_with_fields(
                        self.units@[j],
                        #[trigger] units@[j],
                        texts_of(fields@),
                    ),
            decreases self.units@.len() - i,
        {
            let unit = &self.units[i];
            let mut own = clone_texts(&unit.fields);
            extend_fields(&mut own, fields);
            units.push(
                ComponentTargetUnit {
                    uuid: unit.uuid.clone(),
                    unit: unit.unit,
                    fields: own,
                    lib_id: unit.lib_id.clone(),
                    x: unit.x,
                    y: unit.y,
                    rotation: unit.rotation,
                    mirror: clone_opt(&unit.mirror),
                    instances: clone_paths(&unit.instances),
                },
            );
            i += 1;
        }
        ComponentTarget { reference, units }
    }

    /// The identifiers of the units.
    pub fn uuids(&self) -> (res: Vec<String>)
        ensures
            texts(res@) == target_uuids(self.units@),
    {
        let ghost all = target_uuids(self.units@);
        let mut res: Vec<String> = Vec::new();
        let mut i: usize = 0;
        assert(texts(res@) =~= all.take(0));
        while i < self.units.len()
            invariant
                i <= self.units@.len(),
                all == target_uuids(self.units@),
                texts(res@) == all.take(i as int),
            decreases self.units@.len() - i,
        {
            let ghost before = texts(res@);
            res.push(self.units[i].uuid.clone());
            assert(texts(res@) =~= before.push(all[i as int]));
            assert(all.take(i + 1) =~= all.take(i as int).push(all[i as int]));
            i += 1;
        }
        assert(all.take(i as int) =~= all);
        res
    }
}

/// The component that a schematic shows, where it is what was intended.
pub open spec fn verified_readback(
    path: Seq<char>,
    same_document: bool,
    committed: ReadSchematic,
    target: ComponentTarget,
) -> Result<ComponentObservation, TargetFault> {
    match readback(
        path,
        same_document,
        committed,
        target_uuids(target.units@),
        Some(target.reference@),
    ) {
        Err(fault) => Err(fault),
        Ok(observation) => match units_fault(
            path,
            observation.units,
            target.units@,
            target.units@.len(),
        ) {
            Some(fault) => Err(fault),
            None => Ok(observation),
        },
    }
}

/// Reads a component back and holds it to what was intended.
pub fn verified_component_readback(
    path: &str,
    same_document: bool,
    committed: &ReadSchematic,
    expected: &ComponentTarget,
) -> (res: Result<ObservedComponent, ToolError>)
    ensures
        match verified_readback(path@, same_document, *committed, *expected) {
            Ok(observation) => res matches Ok(component) && component@ == observation,
            Err(fault) => res matches Err(error) && error@ == fault.reported(),
        },
{
    let uuids = expected.uuids();
    let observed = match component_mutation_readback_from_schematic(
        path,
        same_document,
        committed,
        &uuids,
        Some(expected.reference.as_str()),
    ) {
        Ok(observed) => observed,
        Err(error) => {
            return Err(error);
        },
    };
    match verify_component_expectations(path, &observed, &expected.units) {
        Ok(_) => Ok(observed),
        Err(error) => Err(error),
    }
}

/// What may be changed about where a field's text stands. A part that is absent
/// is left as it is.
#[derive(Clone, Copy, PartialEq, Eq, Debug, Structural)]
pub struct FieldPlacement {
    pub x: Option<i64>,
    pub y: Option<i64>,
    pub rotation: Option<i64>,
    pub hide: Option<bool>,
}

impl FieldPlacement {
    /// Whether nothing is to be changed.
    pub fn is_empty(&self) -> (res: bool)
        ensures
            res == (self.x is None && self.y is None && self.rotation is None && self.hide is None),
    {
        self.x.is_none() && self.y.is_none() && self.rotation.is_none() && self.hide.is_none()
    }

    /// Whether the text is to be moved.
    pub fn moves_the_text(&self) -> (res: bool)
        ensures
            res == (self.x is Some || self.y is Some),
    {
        self.x.is_some() || self.y.is_some()
    }
}

/// What was found agrees with what was asked for, in the parts that were.
pub open spec fn landed(seen: Option<ObservedPlacement>, placement: FieldPlacement) -> bool {
    &&& placement.x is Some ==> seen is Some && seen->0.x == placement.x->0
    &&& placement.y is Some ==> seen is Some && seen->0.y == placement.y->0
    &&& placement.rotation is Some ==> seen is Some && seen->0.rotation == placement.rotation->0
    &&& placement.hide is Some ==> seen is Some && seen->0.hide == placement.hide->0
}

/// Whether a field stands where it was asked to. Only what was asked for is
/// compared.
pub fn placement_landed(seen: Option<ObservedPlacement>, placement: &FieldPlacement) -> (res: bool)
    ensures
        res == landed(seen, *placement),
{
    let x_ok: bool = match placement.x {
        None => true,
        Some(want) => match seen {
            Some(got) => got.x == want,
            None => false,
        },
    };
    let y_ok: bool = match placement.y {
        None => true,
        Some(want) => match seen {
            Some(got) => got.y == want,
            None => false,
        },
    };
    let rotation_ok: bool = match placement.rotation {
        None => true,
        Some(want) => match seen {
            Some(got) => got.rotation == want,
            None => false,
        },
    };
    let hide_ok: bool = match placement.hide {
        None => true,
        Some(want) => match seen {
            Some(got) => got.hide == want,
            None => false,
        },
    };
    x_ok && y_ok && rotation_ok && hide_ok
}

/// A change to a component: what it is to be, and where its fields are to
/// stand, on one unit or on all.
#[derive(PartialEq, Eq, Debug)]
pub struct ComponentMutationIntent {
    pub target: ComponentTarget,
    pub field_placements: Vec<(String, FieldPlacement)>,
    pub placement_unit: Option<u32>,
}

impl ComponentMutationIntent {
    /// A change that moves no field.
    pub fn new(target: ComponentTarget) -> (res: ComponentMutationIntent)
        ensures
            res.target == target,
            res.field_placements@.len() == 0,
            res.placement_unit is None,
    {
        ComponentMutationIntent { target, field_placements: Vec::new(), placement_unit: None }
    }

    /// The change with fields moved too.
    pub fn with_field_placements(
        self,
        field_placements: Vec<(String, FieldPlacement)>,
        placement_unit: Option<u32>,
    ) -> (res: ComponentMutationIntent)
        ensures
            res.target == self.target,
            res.field_placements == field_placements,
            res.placement_unit == placement_unit,
    {
        ComponentMutationIntent { target: self.target, field_placements, placement_unit }
    }
}

/// Where a field stands on a unit.
pub open spec fn seen_on(unit: UnitView, name: Seq<char>) -> Option<ObservedPlacement> {
    if unit.field_placements.contains_key(name) {
        Some(unit.field_placements[name])
    } else {
        None
    }
}

/// A field that was to be moved does not stand on this unit where it was to.
pub open spec fn missed(
    unit: UnitView,
    name: Seq<char>,
    placement: FieldPlacement,
    only: Option<u32>,
) -> bool {
    !(only is Some && only->0 != unit.unit) && !landed(seen_on(unit, name), placement)
}

/// What is said of a field that does not stand where it was to.
pub open spec fn missed_fault(
    path: Seq<char>,
    phase: Seq<char>,
    name: Seq<char>,
    unit: UnitView,
) -> TargetFault {
    stale(
        path,
        phase + " placement of '"@ + name + "' on unit "@ + number_text(unit.unit as nat)
            + " differs from what was requested"@,
    )
}

/// The first of the first `n` units on which a field misses its place.
pub open spec fn first_missed(
    path: Seq<char>,
    phase: Seq<char>,
    units: Seq<UnitView>,
    name: Seq<char>,
    placement: FieldPlacement,
    only: Option<u32>,
    n: nat,
) -> Option<TargetFault>
    decreases n,
{
    if n == 0 {
        None
    } else {
        match first_missed(path, phase, units, name, placement, only, (n - 1) as nat) {
            Some(fault) => Some(fault),
            None => if missed(units[n - 1], name, placement, only) {
                Some(missed_fault(path, phase, name, units[n - 1]))
            } else {
                None
            },
        }
    }
}

/// What stands against the first `n` fields that were to be moved.
pub open spec fn placements_fault(
    path: Seq<char>,
    phase: Seq<char>,
    units: Seq<UnitView>,
    placements: Seq<(String, FieldPlacement)>,
    only: Option<u32>,
    n: nat,
) -> Option<TargetFault>
    decreases n,
{
    if n == 0 {
        None
    } else {
        match placements_fault(path, phase, units, placements, only, (n - 1) as nat) {
            Some(fault) => Some(fault),
            None => first_missed(
                path,
                phase,
                units,
                placements[n - 1].0@,
                placements[n - 1].1,
                only,
                units.len(),
            ),
        }
    }
}

fn check_placement(
    path: &str,
    phase: &str,
    units: &Vec<ObservedUnit>,
    name: &str,
    placement: &FieldPlacement,
    only: Option<u32>,
) -> (res: Option<ComponentDeleteTargetError>)
    ensures
        match res {
            Some(error) => first_missed(
                path@,
                phase@,
                unit_views(units@),
                name@,
                *placement,
                only,
                units@.len(),
            ) == Some(error@),
            None => first_missed(
                path@,
                phase@,
                unit_views(units@),
                name@,
                *placement,
                only,
                units@.len(),
            ) is None,
        },
{
    let ghost all = unit_views(units@);
    let mut i: usize = 0;
    while i < units.len()
        invariant
            i <= units@.len(),
            all == unit_views(units@),
            first_missed(path@, phase@, all, name@, *placement, only, i as nat) is None,
        decreases units@.len() - i,
    {
        let unit = &units[i];
        assert(all[i as int] == unit@);
        let skipped: bool = match only {
            Some(wanted) => wanted != unit.unit,
            None => false,
        };
        let seen: Option<ObservedPlacement> = match unit.field_placements.get(name) {
            Some(found) => Some(*found),
            None => None,
        };
        if !skipped && !placement_landed(seen, placement) {
            let mut reason = concat5(
                phase,
                " placement of '",
                name,
                "' on unit ",
                write_number(unit.unit as usize).as_str(),
            );
            reason.append(" differs from what was requested");
            proof {
                lemma_missed_stays(
                    path@,
                    phase@,
                    all,
                    name@,
                    *placement,
                    only,
                    (i + 1) as nat,
                );
            }
            return Some(ComponentDeleteTargetError::stale(path, reason));
        }
        i += 1;
    }
    None
}

proof fn lemma_missed_stays(
    path: Seq<char>,
    phase: Seq<char>,
    units: Seq<UnitView>,
    name: Seq<char>,
    placement: FieldPlacement,
    only: Option<u32>,
    n: nat,
)
    requires
        n <= units.len(),
        first_missed(path, phase, units, name, placement, only, n) is Some,
    ensures
        first_missed(path, phase, units, name, placement, only, units.len()) == first_missed(
            path,
            phase,
            units,
            name,
            placement,
            only,
            n,
        ),
    decreases units.len() - n,
{
    if n < units.len() {
        lemma_missed_stays(path, phase, units, name, placement, only, n + 1);
    }
}

/// Holds the fields that were read back to where they were asked to stand.
pub fn verify_requested_field_placements(
    path: &str,
    observed: &ObservedComponent,
    intent: &ComponentMutationIntent,
    phase: &str,
) -> (res: Result<(), ToolError>)
    ensures
        match placements_fault(
            path@,
            phase@,
            observed@.units,
            intent.field_placements@,
            intent.placement_unit,
            intent.field_placements@.len(),
        ) {
            Some(fault) => res matches Err(error) && error@ == fault.reported(),
            None => res is Ok,
        },
{
    let ghost units = unit_views(observed.units@);
    let ghost all = intent.field_placements@;
    let mut i: usize = 0;
    while i < intent.field_placements.len()
        invariant
            i <= intent.field_placements@.len(),
            all == intent.field_placements@,
            units == unit_views(observed.units@),
            placements_fault(path@, phase@, units, all, intent.placement_unit, i as nat) is None,
        decreases intent.field_placements@.len() - i,
    {
        let entry = &intent.field_placements[i];
        if let Some(error) = check_placement(
            path,
            phase,
            &observed.units,
            entry.0.as_str(),
            &entry.1,
            intent.placement_unit,
        ) {
            proof {
                lemma_placements_fault_stays(
                    path@,
                    phase@,
                    units,
                    all,
                    intent.placement_unit,
                    (i + 1) as nat,
                );
            }
            return Err(error.into_result());
        }
        i += 1;
    }
    Ok(())
}

proof fn lemma_placements_fault_stays(
    path: Seq<char>,
    phase: Seq<char>,
    units: Seq<UnitView>,
    placements: Seq<(String, FieldPlacement)>,
    only: Option<u32>,
    n: nat,
)
    requires
        n <= placements.len(),
        placements_fault(path, phase, units, placements, only, n) is Some,
    ensures
        placements_fault(path, phase, units, placements, only, placements.len())
            == placements_fault(path, phase, units, placements, only, n),
    decreases placements.len() - n,
{
    if n < placements.len() {
        lemma_placements_fault_stays(path, phase, units, placements, only, n + 1);
    }
}

/// The observation of one intended change, or what stands against it.
pub open spec fn intent_outcome(
    path: Seq<char>,
    same_document: bool,
    schematic: ReadSchematic,
    intent: ComponentMutationIntent,
    phase: Seq<char>,
) -> Result<ComponentObservation, TargetFault> {
    match verified_readback(path, same_document, schematic, intent.target) {
        Err(fault) => Err(fault),
        Ok(observation) => match placements_fault(
            path,
            phase,
            observation.units,
            intent.field_placements@,
            intent.placement_unit,
            intent.field_placements@.len(),
        ) {
            Some(fault) => Err(fault),
            None => Ok(observation),
        },
    }
}

/// The observations of the first `n` intended changes, or the first fault.
pub open spec fn intents_outcome(
    path: Seq<char>,
    same_document: bool,
    schematic: ReadSchematic,
    intents: Seq<ComponentMutationIntent>,
    phase: Seq<char>,
    n: nat,
) -> Result<Seq<ComponentObservation>, TargetFault>
    decreases n,
{
    if n == 0 {
        Ok(Seq::empty())
    } else {
        match intents_outcome(path, same_document, schematic, intents, phase, (n - 1) as nat) {
            Err(fault) => Err(fault),
            Ok(list) => match intent_outcome(
                path,
                same_document,
                schematic,
                intents[n - 1],
                phase,
            ) {
                Err(fault) => Err(fault),
                Ok(observation) => Ok(list.push(observation)),
            },
        }
    }
}

/// The contents of a list of components.
pub open spec fn observations(list: Seq<ObservedComponent>) -> Seq<ComponentObservation> {
    Seq::new(list.len(), |i: int| list[i]@)
}

proof fn lemma_intents_fault_stays(
    path: Seq<char>,
    same_document: bool,
    schematic: ReadSchematic,
    intents: Seq<ComponentMutationIntent>,
    phase: Seq<char>,
    n: nat,
)
    requires
        n <= intents.len(),
        intents_outcome(path, same_document, schematic, intents, phase, n) is Err,
    ensures
        intents_outcome(path, same_document, schematic, intents, phase, intents.len())
            == intents_outcome(path, same_document, schematic, intents, phase, n),
    decreases intents.len() - n,
{
    if n < intents.len() {
        lemma_intents_fault_stays(path, same_document, schematic, intents, phase, n + 1);
    }
}

/// Holds a schematic to a list of intended changes. The same check serves the
/// prospective file before it is committed and the saved file after.
pub fn verify_component_mutation_intents(
    path: &str,
    same_document: bool,
    schematic: &ReadSchematic,
    intents: &Vec<ComponentMutationIntent>,
    phase: &str,
) -> (res: Result<Vec<ObservedComponent>, ToolError>)
    ensures
        match intents_outcome(
            path@,
            same_document,
            *schematic,
            intents@,
            phase@,
            intents@.len(),
        ) {
            Ok(list) => res matches Ok(found) && observations(found@) == list,
            Err(fault) => res matches Err(error) && error@ == fault.reported(),
        },
{
    let mut found: Vec<ObservedComponent> = Vec::new();
    let mut i: usize = 0;
    assert(observations(found@) =~= Seq::empty());
    while i < intents.len()
        invariant
            i <= intents@.len(),
            intents_outcome(path@, same_document, *schematic, intents@, phase@, i as nat)
                == Ok::<_, TargetFault>(observations(found@)),
        decreases intents@.len() - i,
    {
        let intent = &intents[i];
        let observed = match verified_component_readback(
            path,
            same_document,
            schematic,
            &intent.target,
        ) {
            Ok(observed) => observed,
            Err(error) => {
                proof {
                    lemma_intents_fault_stays(
                        path@,
                        same_document,
                        *schematic,
                        intents@,
                        phase@,
                        (i + 1) as nat,
                    );
                }
                return Err(error);
            },
        };
        match verify_requested_field_placements(path, &observed, intent, phase) {
            Ok(_) => {
                let ghost before = observations(found@);
                let ghost view = observed@;
                found.push(observed);
                assert(observations(found@) =~= before.push(view));
            },
            Err(error) => {
                proof {
                    lemma_intents_fault_stays(
                        path@,
                        same_document,
                        *schematic,
                        intents@,
                        phase@,
                        (i + 1) as nat,
                    );
                }
                return Err(error);
            },
        }
        i += 1;
    }
    Ok(found)
}

/// A placement that asks for nothing is never missed.
pub proof fn law_nothing_asked_nothing_missed(
    unit: UnitView,
    name: Seq<char>,
    placement: FieldPlacement,
    only: Option<u32>,
)
    requires
        placement.x is None,
        placement.y is None,
        placement.rotation is None,
        placement.hide is None,
    ensures
        !missed(unit, name, placement, only),
{
}

/// A component that passes is, unit for unit, what was intended.
pub proof fn law_verified_means_intended(
    path: Seq<char>,
    units: Seq<UnitView>,
    targets: Seq<ComponentTargetUnit>,
    n: nat,
    i: int,
)
    requires
        n <= targets.len(),
        units_fault(path, units, targets, n) is None,
        0 <= i < n,
    ensures
        find_unit(units, targets[i].uuid@, units.len()) matches Some(unit) && unit.unit
            == targets[i].unit && unit.lib_id == targets[i].lib_id@ && unit.x == targets[i].x
            && unit.y == targets[i].y && unit.rotation == targets[i].rotation
            && unit.instance_paths == path_views(targets[i].instances@),
    decreases n,
{
    if i < n - 1 {
        law_verified_means_intended(path, units, targets, (n - 1) as nat, i);
    }
}

} // verus!
