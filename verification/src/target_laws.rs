//! What binding a change to a component comes to, told from its placed units.

use crate::deletion::ItemView;
use crate::intent::ComponentTarget;
use crate::lists::{lemma_positions, lemma_same_positions, positions_where};
use crate::readback_laws::{law_records_are_accepted_when_they_fit, records_fit};
use crate::sexp::Sexp;
use crate::symbol::usage;
use crate::target::{
    binding_outcome, node_fields, node_value, ordered_units, paths_fault, placed_unit, placed_units,
    projects_fault, target_unit, target_unit_views, target_units, unit_before, usages_fault,
    used_elsewhere, uuids_with_unit, SourceInstance, TargetUnitView,
};
use crate::text::opt_text;
use crate::tool_error::ComponentDeleteTargetError;
use vstd::prelude::*;
use vstd::string::*;

verus! {

/// No two of these nodes have the same name; nodes without one do not count.
pub open spec fn node_names_differ(list: Seq<Sexp>) -> bool {
    forall|i: int, j: int|
        0 <= i < j < list.len() && (#[trigger] list[i]).text_at(1) is Some ==> list[i].text_at(1)
            != (#[trigger] list[j]).text_at(1)
}

/// Each field is that of a node with its name, and each named node has its
/// field.
pub open spec fn fields_of_nodes(list: Seq<Sexp>, fields: Map<Seq<char>, Seq<char>>) -> bool {
    &&& forall|i: int|
        0 <= i < list.len() && (#[trigger] list[i]).text_at(1) is Some ==> fields.contains_key(
            list[i].text_at(1)->0,
        ) && fields[list[i].text_at(1)->0] == (match list[i].text_at(2) {
            Some(value) => value,
            None => Seq::empty(),
        })
    &&& forall|name: Seq<char>| #[trigger]
        fields.contains_key(name) ==> exists|i: int|
            0 <= i < list.len() && (#[trigger] list[i]).text_at(1) == Some(name)
}

/// The fields of a unit are those of its named property nodes; they are refused
/// exactly if two of them have one name.
pub proof fn law_every_named_node_is_a_field(
    reference: Seq<char>,
    unit: u32,
    uuid: Seq<char>,
    list: Seq<Sexp>,
)
    ensures
        node_fields(reference, unit, uuid, list) is Ok <==> node_names_differ(list),
        node_fields(reference, unit, uuid, list) matches Ok(fields) ==> fields_of_nodes(
            list,
            fields,
        ),
    decreases list.len(),
{
    if list.len() > 0 {
        let rest = list.drop_last();
        law_every_named_node_is_a_field(reference, unit, uuid, rest);
        let own = list.last();
        assert(list[list.len() - 1] == own);
        assert(forall|i: int| 0 <= i < rest.len() ==> #[trigger] rest[i] == list[i]);
        if node_names_differ(list) {
            assert forall|i: int, j: int|
                0 <= i < j < rest.len() && (#[trigger] rest[i]).text_at(1) is Some implies rest[
                i].text_at(1) != (#[trigger] rest[j]).text_at(1) by {
                assert(list[i].text_at(1) != list[j].text_at(1));
            }
        }
        if node_fields(reference, unit, uuid, rest) is Ok {
            let fields = node_fields(reference, unit, uuid, rest)->Ok_0;
            let name = own.text_at(1);
            if name is Some && fields.contains_key(name->0) {
                let i = choose|i: int| 0 <= i < rest.len() && (#[trigger] rest[i]).text_at(1) == name;
                assert(list[i].text_at(1) == list[list.len() - 1].text_at(1));
            } else {
                assert forall|i: int, j: int|
                    0 <= i < j < list.len() && (#[trigger] list[i]).text_at(1) is Some implies list[
                    i].text_at(1) != (#[trigger] list[j]).text_at(1) by {
                    assert(rest[i] == list[i]);
                    if j < rest.len() {
                        assert(rest[j] == list[j]);
                    }
                }
                let all = node_fields(reference, unit, uuid, list)->Ok_0;
                assert forall|i: int|
                    0 <= i < list.len() && (
                    #[trigger] list[i]).text_at(1) is Some implies all.contains_key(
                    list[i].text_at(1)->0,
                ) && all[list[i].text_at(1)->0] == node_value(list[i]) by {
                    if i < rest.len() {
                        assert(rest[i] == list[i]);
                    }
                }
                assert forall|key: Seq<char>| #[trigger] all.contains_key(key) implies exists|i: int|
                    0 <= i < list.len() && (#[trigger] list[i]).text_at(1) == Some(key) by {
                    if fields.contains_key(key) {
                        let i = choose|i: int|
                            0 <= i < rest.len() && (#[trigger] rest[i]).text_at(1) == Some(key);
                        assert(list[i].text_at(1) == Some(key));
                    }
                }
            }
        } else {
            assert(!node_names_differ(list));
        }
    }
}

/// Every path of these projects' usages names this reference.
pub open spec fn every_path_names(usages: Seq<Sexp>, reference: Seq<char>) -> bool {
    forall|i: int| 0 <= i < usages.len() ==> usage_names(#[trigger] usages[i], reference)
}

/// Every path of a usage names this reference.
pub open spec fn usage_names(usage: Sexp, reference: Seq<char>) -> bool {
    let projects = usage.all("project"@);
    forall|i: int| 0 <= i < projects.len() ==> project_names(#[trigger] projects[i], reference)
}

/// Every path of a project names this reference.
pub open spec fn project_names(project: Sexp, reference: Seq<char>) -> bool {
    let paths = project.all("path"@);
    forall|i: int|
        0 <= i < paths.len() ==> (#[trigger] paths[i]).value_of("reference"@) == Some(reference)
}

/// The usages of a unit are refused exactly if some path does not name the
/// component.
pub proof fn law_usages_are_accepted_when_they_name_the_component(
    path: Seq<char>,
    reference: Seq<char>,
    uuid: Seq<char>,
    usages: Seq<Sexp>,
)
    ensures
        usages_fault(path, reference, uuid, usages) is None <==> every_path_names(
            usages,
            reference,
        ),
    decreases usages.len(),
{
    if usages.len() > 0 {
        let rest = usages.drop_last();
        law_usages_are_accepted_when_they_name_the_component(path, reference, uuid, rest);
        lemma_projects(path, reference, uuid, usages.last().all("project"@));
        assert(usages[usages.len() - 1] == usages.last());
        assert(forall|i: int| 0 <= i < rest.len() ==> #[trigger] rest[i] == usages[i]);
        if usages_fault(path, reference, uuid, rest) is Some {
            let i = choose|i: int| 0 <= i < rest.len() && !usage_names(#[trigger] rest[i], reference);
            assert(!usage_names(usages[i], reference));
        } else {
            assert forall|i: int| 0 <= i < usages.len() - 1 implies usage_names(
                #[trigger] usages[i],
                reference,
            ) by {
                assert(usage_names(rest[i], reference));
            }
        }
    }
}

proof fn lemma_projects(
    path: Seq<char>,
    reference: Seq<char>,
    uuid: Seq<char>,
    projects: Seq<Sexp>,
)
    ensures
        projects_fault(path, reference, uuid, projects) is None <==> forall|i: int|
            0 <= i < projects.len() ==> project_names(#[trigger] projects[i], reference),
    decreases projects.len(),
{
    if projects.len() > 0 {
        let rest = projects.drop_last();
        lemma_projects(path, reference, uuid, rest);
        lemma_paths(path, reference, uuid, projects.last().all("path"@));
        assert(projects[projects.len() - 1] == projects.last());
        assert(forall|i: int| 0 <= i < rest.len() ==> #[trigger] rest[i] == projects[i]);
        if projects_fault(path, reference, uuid, rest) is Some {
            let i = choose|i: int|
                0 <= i < rest.len() && !project_names(#[trigger] rest[i], reference);
            assert(!project_names(projects[i], reference));
        } else {
            assert forall|i: int| 0 <= i < projects.len() - 1 implies project_names(
                #[trigger] projects[i],
                reference,
            ) by {
                assert(project_names(rest[i], reference));
            }
        }
    }
}

proof fn lemma_paths(path: Seq<char>, reference: Seq<char>, uuid: Seq<char>, paths: Seq<Sexp>)
    ensures
        paths_fault(path, reference, uuid, paths) is None <==> forall|i: int|
            0 <= i < paths.len() ==> (#[trigger] paths[i]).value_of("reference"@) == Some(
                reference,
            ),
    decreases paths.len(),
{
    if paths.len() > 0 {
        let rest = paths.drop_last();
        lemma_paths(path, reference, uuid, rest);
        assert(paths[paths.len() - 1] == paths.last());
        assert(forall|i: int| 0 <= i < rest.len() ==> #[trigger] rest[i] == paths[i]);
        if paths_fault(path, reference, uuid, rest) is Some {
            let i = choose|i: int|
                0 <= i < rest.len() && (#[trigger] rest[i]).value_of("reference"@) != Some(
                    reference,
                );
            assert(paths[i].value_of("reference"@) != Some(reference));
        } else {
            assert forall|i: int| 0 <= i < paths.len() - 1 implies (
            #[trigger] paths[i]).value_of("reference"@) == Some(reference) by {
                assert(rest[i].value_of("reference"@) == Some(reference));
            }
        }
    }
}

/// A placed unit can be bound: it has an identifier that is a symbol's, its
/// text can be read, its fields differ in name, its paths name the component
/// and its records fit.
pub open spec fn can_be_bound(
    reference: Seq<char>,
    items: Map<Seq<char>, ItemView>,
    source: SourceInstance,
) -> bool {
    &&& source.instance.uuid is Some
    &&& items.contains_key(source.instance.uuid->0@)
    &&& items[source.instance.uuid->0@].kind == "symbol"@
    &&& source.node is Ok
    &&& node_names_differ(source.node->Ok_0@.all("property"@))
    &&& every_path_names(source.node->Ok_0@.all("instances"@), reference)
    &&& source.symbol is Ok
    &&& records_fit(source.symbol->Ok_0)
}

/// A unit of a target is what the placed unit is.
pub open spec fn bound_as_placed(unit: TargetUnitView, source: SourceInstance) -> bool {
    &&& unit.uuid == source.instance.uuid->0@
    &&& unit.unit == source.instance.unit
    &&& unit.lib_id == source.instance.lib_id@
    &&& unit.x == source.instance.x
    &&& unit.y == source.instance.y
    &&& unit.rotation == source.instance.rotation
    &&& unit.mirror == opt_text(source.symbol->Ok_0.mirror)
    &&& unit.instances == usage(source.symbol->Ok_0)
    &&& fields_of_nodes(source.node->Ok_0@.all("property"@), unit.fields)
}

/// The placed units of a component can be bound together: there are some, each
/// can be bound, no two have one number and all are used in the same places.
pub open spec fn can_be_bound_together(
    reference: Seq<char>,
    items: Map<Seq<char>, ItemView>,
    sources: Seq<SourceInstance>,
) -> bool {
    &&& exists|i: int|
        0 <= i < sources.len() && (#[trigger] sources[i]).instance.reference@ == reference
    &&& forall|i: int|
        0 <= i < sources.len() && (#[trigger] sources[i]).instance.reference@ == reference
            ==> can_be_bound(reference, items, sources[i])
    &&& forall|i: int, j: int|
        0 <= i < j < sources.len() && (#[trigger] sources[i]).instance.reference@ == reference && (
        #[trigger] sources[j]).instance.reference@ == reference ==> sources[i].instance.unit
            != sources[j].instance.unit && usage(sources[i].symbol->Ok_0) == usage(
            sources[j].symbol->Ok_0,
        )
}

/// A component is bound exactly if its placed units can be bound together;
/// its target then has one unit for each of them, as it is placed, in the
/// order of their numbers.
#[verifier::spinoff_prover]
pub proof fn law_every_placed_unit_is_bound(
    path: Seq<char>,
    reference: Seq<char>,
    items: Map<Seq<char>, ItemView>,
    sources: Seq<SourceInstance>,
    res: Result<ComponentTarget, ComponentDeleteTargetError>,
)
    requires
        binding_outcome(path, reference, items, sources, res),
    ensures
        res is Ok <==> can_be_bound_together(reference, items, sources),
        res matches Ok(target) ==> {
            let units = target_unit_views(target.units@);
            &&& target.reference@ == reference
            &&& forall|i: int|
                0 <= i < sources.len() && (#[trigger] sources[i]).instance.reference@ == reference
                    ==> exists|u: int|
                    0 <= u < units.len() && bound_as_placed(#[trigger] units[u], sources[i])
            &&& forall|u: int|
                0 <= u < units.len() ==> is_bound(sources, reference, #[trigger] units[u])
            &&& forall|u: int, v: int|
                0 <= u < v < units.len() ==> (#[trigger] units[u]).unit < (
                #[trigger] units[v]).unit
        },
{
    let at = placed_units(sources, reference);
    lemma_placed(sources, reference);
    lemma_bound(path, reference, items, sources, at, at.len());
    let bound = target_units(path, reference, items, sources, at, at.len());
    if at.len() > 0 {
        assert(sources[at[0]].instance.reference@ == reference);
        if bound is Ok {
            let list = bound->Ok_0;
            lemma_repeated(list);
            assert forall|i: int, j: int| 0 <= i < j < list.len() implies (
            #[trigger] list[i]).unit == sources[at[i]].instance.unit && (
            #[trigger] list[j]).unit == sources[at[j]].instance.unit by {
                assert(bound_as_placed(list[i], sources[at[i]]));
                assert(bound_as_placed(list[j], sources[at[j]]));
            }
            if res is Ok {
                assert forall|i: int|
                    0 <= i < sources.len() && (#[trigger] sources[i]).instance.reference@
                        == reference implies can_be_bound(reference, items, sources[i]) by {
                    assert(at.contains(i));
                    let k = at.index_of(i);
                    assert(can_be_bound(reference, items, sources[at[k]]));
                }
                assert forall|i: int, j: int|
                    0 <= i < j < sources.len() && (#[trigger] sources[i]).instance.reference@
                        == reference && (#[trigger] sources[j]).instance.reference@
                        == reference implies sources[i].instance.unit != sources[j].instance.unit
                    && usage(sources[i].symbol->Ok_0) == usage(sources[j].symbol->Ok_0) by {
                    assert(at.contains(i) && at.contains(j));
                    let (k, m) = (at.index_of(i), at.index_of(j));
                    assert(bound_as_placed(list[k], sources[at[k]]));
                    assert(bound_as_placed(list[m], sources[at[m]]));
                    assert(k != m);
                    assert(list[k].instances == list[0].instances);
                    assert(list[m].instances == list[0].instances);
                    if k < m {
                        assert(list[k].unit != list[m].unit);
                    } else {
                        assert(list[m].unit != list[k].unit);
                    }
                }
                lemma_units_ordered(list);
                let units = ordered_units(list);
                assert forall|i: int|
                    0 <= i < sources.len() && (#[trigger] sources[i]).instance.reference@
                        == reference implies exists|u: int|
                    0 <= u < units.len() && bound_as_placed(#[trigger] units[u], sources[i]) by {
                    assert(at.contains(i));
                    let k = at.index_of(i);
                    assert(bound_as_placed(list[k], sources[at[k]]));
                    assert(list.contains(list[k]));
                    assert(units.contains(list[k]));
                    let u = units.index_of(list[k]);
                    assert(units[u] == list[k]);
                }
                assert forall|u: int| 0 <= u < units.len() implies is_bound(
                    sources,
                    reference,
                    #[trigger] units[u],
                ) by {
                    assert(units.contains(units[u]));
                    assert(list.contains(units[u]));
                    let k = list.index_of(units[u]);
                    assert(bound_as_placed(list[k], sources[at[k]]));
                }
            } else if can_be_bound_together(reference, items, sources) {
                assert forall|k: int, m: int| 0 <= k < m < list.len() implies (
                #[trigger] list[k]).unit != (#[trigger] list[m]).unit && list[k].instances
                    == list[m].instances by {
                    assert(bound_as_placed(list[k], sources[at[k]]));
                    assert(bound_as_placed(list[m], sources[at[m]]));
                    assert(at[k] < at[m]);
                }
                if used_elsewhere(list) {
                    let i = choose|i: int|
                        0 <= i < list.len() && (#[trigger] list[i]).instances != list[0].instances;
                    assert(list[0].instances == list[i].instances);
                }
            }
        } else {
            let k = choose|k: int|
                0 <= k < at.len() && !can_be_bound(reference, items, sources[#[trigger] at[k]]);
            assert(sources[at[k]].instance.reference@ == reference);
        }
    } else if can_be_bound_together(reference, items, sources) {
        let i = choose|i: int|
            0 <= i < sources.len() && (#[trigger] sources[i]).instance.reference@ == reference;
        assert(at.contains(i));
    }
}

/// A unit of a target is that of a placed unit of the component.
pub open spec fn is_bound(
    sources: Seq<SourceInstance>,
    reference: Seq<char>,
    unit: TargetUnitView,
) -> bool {
    exists|i: int|
        0 <= i < sources.len() && (#[trigger] sources[i]).instance.reference@ == reference
            && bound_as_placed(unit, sources[i])
}

proof fn lemma_placed(sources: Seq<SourceInstance>, reference: Seq<char>)
    ensures
        forall|k: int|
            0 <= k < placed_units(sources, reference).len() ==> 0 <= (#[trigger] placed_units(
                sources,
                reference,
            )[k]) < sources.len() && sources[placed_units(
                sources,
                reference,
            )[k]].instance.reference@ == reference,
        forall|i: int|
            0 <= i < sources.len() && (#[trigger] sources[i]).instance.reference@ == reference
                ==> placed_units(sources, reference).contains(i),
        forall|k: int, m: int|
            0 <= k < m < placed_units(sources, reference).len() ==> (#[trigger] placed_units(
                sources,
                reference,
            )[k]) < (#[trigger] placed_units(sources, reference)[m]),
{
    let holds = |i: int| sources[i].instance.reference@ == reference;
    let found = positions_where(holds, sources.len());
    lemma_positions(holds, sources.len());
    assert forall|f: spec_fn(int) -> bool|
        (forall|i: int|
            0 <= i < sources.len() ==> #[trigger] f(i) == (sources[i].instance.reference@
                == reference)) implies #[trigger] positions_where(f, sources.len()) == found by {
        lemma_same_positions(f, holds, sources.len());
    }
    assert(found == placed_units(sources, reference));
    assert forall|i: int|
        0 <= i < sources.len() && (#[trigger] sources[i]).instance.reference@
            == reference implies found.contains(i) by {
        assert(holds(i));
    }
}

proof fn lemma_bound(
    path: Seq<char>,
    reference: Seq<char>,
    items: Map<Seq<char>, ItemView>,
    sources: Seq<SourceInstance>,
    at: Seq<int>,
    n: nat,
)
    requires
        n <= at.len(),
    ensures
        target_units(path, reference, items, sources, at, n) is Ok <==> forall|k: int|
            0 <= k < n ==> can_be_bound(reference, items, sources[#[trigger] at[k]]),
        target_units(path, reference, items, sources, at, n) matches Ok(list) ==> list.len() == n
            && forall|k: int|
            0 <= k < n ==> bound_as_placed(#[trigger] list[k], sources[at[k]]),
    decreases n,
{
    if n > 0 {
        lemma_bound(path, reference, items, sources, at, (n - 1) as nat);
        let source = sources[at[n - 1]];
        let own = target_unit(path, reference, items, source);
        if source.instance.uuid is Some && source.node is Ok {
            let uuid = source.instance.uuid->0@;
            let node = source.node->Ok_0@;
            law_every_named_node_is_a_field(
                reference,
                source.instance.unit,
                uuid,
                node.all("property"@),
            );
            law_usages_are_accepted_when_they_name_the_component(
                path,
                reference,
                uuid,
                node.all("instances"@),
            );
            if source.symbol is Ok {
                law_records_are_accepted_when_they_fit(path, source.symbol->Ok_0);
            }
        }
        assert(own is Ok <==> can_be_bound(reference, items, source));
    }
}

proof fn lemma_repeated(units: Seq<TargetUnitView>)
    ensures
        (exists|u: u32| #[trigger] uuids_with_unit(units, u).len() > 1) <==> exists|
            i: int,
            j: int,
        |
            0 <= i < j < units.len() && (#[trigger] units[i]).unit == (#[trigger] units[j]).unit,
{
    if exists|u: u32| #[trigger] uuids_with_unit(units, u).len() > 1 {
        let u = choose|u: u32| #[trigger] uuids_with_unit(units, u).len() > 1;
        lemma_with_unit(units, u);
    }
    if exists|i: int, j: int|
        0 <= i < j < units.len() && (#[trigger] units[i]).unit == (#[trigger] units[j]).unit {
        let (i, j) = choose|i: int, j: int|
            0 <= i < j < units.len() && (#[trigger] units[i]).unit == (#[trigger] units[j]).unit;
        lemma_with_unit(units, units[i].unit);
    }
}

proof fn lemma_with_unit(units: Seq<TargetUnitView>, unit: u32)
    ensures
        uuids_with_unit(units, unit).len() > 0 <==> exists|i: int|
            0 <= i < units.len() && (#[trigger] units[i]).unit == unit,
        uuids_with_unit(units, unit).len() > 1 <==> exists|i: int, j: int|
            0 <= i < j < units.len() && (#[trigger] units[i]).unit == unit && (
            #[trigger] units[j]).unit == unit,
    decreases units.len(),
{
    if units.len() > 0 {
        let rest = units.drop_last();
        lemma_with_unit(rest, unit);
        let last = units.len() - 1;
        assert(units[last] == units.last());
        assert(forall|i: int| 0 <= i < rest.len() ==> #[trigger] rest[i] == units[i]);
        if exists|i: int| 0 <= i < rest.len() && (#[trigger] rest[i]).unit == unit {
            let i = choose|i: int| 0 <= i < rest.len() && (#[trigger] rest[i]).unit == unit;
            assert(units[i].unit == unit);
        }
        if exists|i: int, j: int|
            0 <= i < j < rest.len() && (#[trigger] rest[i]).unit == unit && (
            #[trigger] rest[j]).unit == unit {
            let (i, j) = choose|i: int, j: int|
                0 <= i < j < rest.len() && (#[trigger] rest[i]).unit == unit && (
                #[trigger] rest[j]).unit == unit;
            assert(units[i].unit == unit && units[j].unit == unit);
        }
        if exists|i: int| 0 <= i < units.len() && (#[trigger] units[i]).unit == unit {
            let i = choose|i: int| 0 <= i < units.len() && (#[trigger] units[i]).unit == unit;
            if i < last {
                assert(rest[i].unit == unit);
            }
        }
        if exists|i: int, j: int|
            0 <= i < j < units.len() && (#[trigger] units[i]).unit == unit && (
            #[trigger] units[j]).unit == unit {
            let (i, j) = choose|i: int, j: int|
                0 <= i < j < units.len() && (#[trigger] units[i]).unit == unit && (
                #[trigger] units[j]).unit == unit;
            assert(rest[i].unit == unit);
            if j < last {
                assert(rest[j].unit == unit);
            }
        }
    }
}

proof fn lemma_units_ordered(units: Seq<TargetUnitView>)
    requires
        forall|i: int, j: int|
            0 <= i < j < units.len() ==> (#[trigger] units[i]).unit != (#[trigger] units[j]).unit,
    ensures
        ordered_units(units).len() == units.len(),
        forall|x: TargetUnitView| #[trigger] ordered_units(units).contains(x) <==> units.contains(x),
        forall|i: int, j: int|
            0 <= i < j < units.len() ==> (#[trigger] ordered_units(units)[i]).unit < (
            #[trigger] ordered_units(units)[j]).unit,
    decreases units.len(),
{
    if units.len() > 0 {
        let rest = units.drop_last();
        let last = units.len() - 1;
        assert(forall|i: int| 0 <= i < rest.len() ==> #[trigger] rest[i] == units[i]);
        lemma_units_ordered(rest);
        let order = ordered_units(rest);
        assert forall|i: int| 0 <= i < order.len() implies (#[trigger] order[i]).unit
            != units.last().unit by {
            assert(order.contains(order[i]));
            assert(rest.contains(order[i]));
            let q = rest.index_of(order[i]);
            assert(units[q].unit != units[last].unit);
        }
        lemma_unit_put(order, units.last());
        assert forall|x: TargetUnitView| #[trigger]
            ordered_units(units).contains(x) <==> units.contains(x) by {
            if units.contains(x) {
                let i = units.index_of(x);
                if i < last {
                    assert(rest[i] == x);
                    assert(rest.contains(x));
                    assert(order.contains(x));
                }
            }
            if ordered_units(units).contains(x) {
                if order.contains(x) {
                    assert(rest.contains(x));
                    assert(units[rest.index_of(x)] == x);
                } else {
                    assert(units[last] == x);
                }
            }
        }
    } else {
        assert(ordered_units(units) =~= Seq::empty());
    }
}

proof fn lemma_unit_put(list: Seq<TargetUnitView>, unit: TargetUnitView)
    requires
        forall|i: int| 0 <= i < list.len() ==> (#[trigger] list[i]).unit != unit.unit,
        forall|i: int, j: int|
            0 <= i < j < list.len() ==> (#[trigger] list[i]).unit < (#[trigger] list[j]).unit,
    ensures
        placed_unit(list, unit).len() == list.len() + 1,
        forall|x: TargetUnitView| #[trigger]
            placed_unit(list, unit).contains(x) <==> list.contains(x) || x == unit,
        forall|i: int, j: int|
            0 <= i < j < list.len() + 1 ==> (#[trigger] placed_unit(list, unit)[i]).unit < (
            #[trigger] placed_unit(list, unit)[j]).unit,
    decreases list.len(),
{
    let res = placed_unit(list, unit);
    if list.len() == 0 || !unit_before(unit, list.last()) {
        assert(res == list.push(unit));
        assert forall|x: TargetUnitView| #[trigger] res.contains(x) <==> list.contains(x) || x
            == unit by {
            assert(res[list.len() as int] == unit);
            if list.contains(x) {
                assert(res[list.index_of(x)] == x);
            }
            if res.contains(x) && x != unit {
                assert(list[res.index_of(x)] == x);
            }
        }
        if list.len() > 0 {
            assert(list[list.len() - 1].unit < unit.unit);
        }
    } else {
        let rest = list.drop_last();
        assert(forall|i: int| 0 <= i < rest.len() ==> #[trigger] rest[i] == list[i]);
        lemma_unit_put(rest, unit);
        let part = placed_unit(rest, unit);
        assert(res == part.push(list.last()));
        assert(list[list.len() - 1] == list.last());
        assert forall|x: TargetUnitView| #[trigger] res.contains(x) <==> list.contains(x) || x
            == unit by {
            assert(res[part.len() as int] == list.last());
            if part.contains(x) {
                assert(res[part.index_of(x)] == x);
            }
            if rest.contains(x) {
                assert(list[rest.index_of(x)] == x);
            }
            if list.contains(x) && x != list.last() {
                assert(rest[list.index_of(x)] == x);
            }
            if res.contains(x) && x != list.last() {
                assert(part[res.index_of(x)] == x);
            }
        }
        assert forall|i: int, j: int| 0 <= i < j < res.len() implies (#[trigger] res[i]).unit < (
        #[trigger] res[j]).unit by {
            assert(res[i] == part[i]);
            if j < part.len() {
                assert(res[j] == part[j]);
            } else {
                assert(part.contains(part[i]));
                if part[i] != unit {
                    let q = rest.index_of(part[i]);
                    assert(list[q].unit < list[list.len() - 1].unit);
                }
            }
        }
    }
}

} // verus!
