//! What a deletion takes with it, told from the pins, the flags and the items of
//! the sheet.

use crate::deletion::{
    affected_places, deduped, doomed, first_absent, first_instance_fault, first_left, first_present,
    goes_along, group_selected, indexed, instance_count, instance_fault, junctions, kind_of,
    law_deduped_covers, marker_set, placed_twice, places_of, references_of, remaining_places,
    selected, selection_outcome, touches, uuid_list, uuids_of_reference, uuids_of_unit, with_blocks,
    DeletionTargets, ItemView, NoConnect, PinGroup, PlacedInstance, TopLevelBlock,
};
use crate::geometry_laws::close;
use crate::readback_laws::lemma_somes_ordered;
use crate::text::{ordered_list_of, strictly_ordered, texts};
use crate::tool_error::ComponentDeleteTargetError;
use vstd::prelude::*;
use vstd::string::*;

verus! {

/// Pins of group `g` belong to one of the units.
pub open spec fn belongs_to_units(groups: Seq<PinGroup>, uuids: Seq<Seq<char>>, g: int) -> bool {
    groups[g].uuid is Some && uuids.contains(groups[g].uuid->0@)
}

/// A pin of the units, or with `goes` false a pin of anything else, is here.
pub open spec fn pin_at(
    groups: Seq<PinGroup>,
    uuids: Seq<Seq<char>>,
    goes: bool,
    place: (i64, i64),
) -> bool {
    exists|g: int, i: int|
        0 <= g < groups.len() && belongs_to_units(groups, uuids, g) == goes && 0 <= i
            < groups[g].places@.len() && #[trigger] groups[g].places@[i] == place
}

/// The places are less than a hundredth of a millimetre apart on both axes.
pub open spec fn near_by(a: (i64, i64), b: (i64, i64)) -> bool {
    close(a.0 as int, a.1 as int, b.0 as int, b.1 as int, 10_000)
}

/// No pin of the same sort is near this one and away from the flag.
pub open spec fn speaks_for_its_neighbours(
    groups: Seq<PinGroup>,
    uuids: Seq<Seq<char>>,
    goes: bool,
    place: (i64, i64),
    flag: (i64, i64),
) -> bool {
    forall|other: (i64, i64)| #[trigger]
        pin_at(groups, uuids, goes, other) && near_by(other, place) ==> near_by(flag, other)
}

proof fn lemma_places(
    groups: Seq<PinGroup>,
    uuids: Seq<Seq<char>>,
    goes: bool,
    n: nat,
    place: (i64, i64),
)
    requires
        n <= groups.len(),
    ensures
        places_of(groups, uuids, goes, n).contains(place) <==> exists|g: int, i: int|
            0 <= g < n && belongs_to_units(groups, uuids, g) == goes && 0 <= i
                < groups[g].places@.len() && #[trigger] groups[g].places@[i] == place,
    decreases n,
{
    if n > 0 {
        lemma_places(groups, uuids, goes, (n - 1) as nat, place);
        let rest = places_of(groups, uuids, goes, (n - 1) as nat);
        let list = places_of(groups, uuids, goes, n);
        let own = groups[n - 1].places@;
        assert(group_selected(groups[n - 1], uuids) == belongs_to_units(groups, uuids, n - 1));
        if rest.contains(place) {
            assert(list[rest.index_of(place)] == place);
        }
        if list.contains(place) {
            let k = list.index_of(place);
            if k < rest.len() {
                assert(rest[k] == place);
            } else {
                assert(groups[n - 1].places@[k - rest.len()] == place);
            }
        }
        if exists|g: int, i: int|
            0 <= g < n && belongs_to_units(groups, uuids, g) == goes && 0 <= i
                < groups[g].places@.len() && #[trigger] groups[g].places@[i] == place {
            let (g, i) = choose|g: int, i: int|
                0 <= g < n && belongs_to_units(groups, uuids, g) == goes && 0 <= i
                    < groups[g].places@.len() && #[trigger] groups[g].places@[i] == place;
            if g == n - 1 {
                assert(list[rest.len() + i] == own[i]);
            }
        }
    }
}

proof fn lemma_kept(places: Seq<(i64, i64)>)
    ensures
        forall|k: int|
            0 <= k < deduped(places).len() ==> places.contains(#[trigger] deduped(places)[k]),
    decreases places.len(),
{
    if places.len() > 0 {
        let rest = places.drop_last();
        lemma_kept(rest);
        assert forall|k: int| 0 <= k < deduped(places).len() implies places.contains(
            #[trigger] deduped(places)[k],
        ) by {
            if k < deduped(rest).len() {
                assert(deduped(places)[k] == deduped(rest)[k]);
                let j = rest.index_of(deduped(rest)[k]);
                assert(places[j] == deduped(rest)[k]);
            } else {
                assert(places[places.len() - 1] == places.last());
            }
        }
    }
}

/// A place that speaks for its neighbours is felt by a flag near it.
proof fn lemma_felt(
    groups: Seq<PinGroup>,
    uuids: Seq<Seq<char>>,
    goes: bool,
    place: (i64, i64),
    flag: (i64, i64),
)
    requires
        pin_at(groups, uuids, goes, place),
        near_by(flag, place),
        speaks_for_its_neighbours(groups, uuids, goes, place, flag),
    ensures
        touches(deduped(places_of(groups, uuids, goes, groups.len())), flag.0, flag.1),
{
    let places = places_of(groups, uuids, goes, groups.len());
    let kept = deduped(places);
    lemma_places(groups, uuids, goes, groups.len(), place);
    let i = places.index_of(place);
    law_deduped_covers(places, i);
    if kept.contains(place) {
        let k = kept.index_of(place);
        assert(crate::geometry::coincident(
            flag.0 as int,
            flag.1 as int,
            kept[k].0 as int,
            kept[k].1 as int,
            crate::geometry::COINCIDENT_TOLERANCE as int,
        ));
    } else {
        let k = choose|k: int|
            0 <= k < kept.len() && crate::geometry::coincident(
                place.0 as int,
                place.1 as int,
                (#[trigger] kept[k]).0 as int,
                kept[k].1 as int,
                crate::geometry::COINCIDENT_TOLERANCE as int,
            );
        let other = kept[k];
        lemma_kept(places);
        assert(places.contains(kept[k]));
        lemma_places(groups, uuids, goes, groups.len(), other);
        assert(pin_at(groups, uuids, goes, other));
        assert(near_by(other, place));
        assert(near_by(flag, other));
        assert(crate::geometry::coincident(
            flag.0 as int,
            flag.1 as int,
            kept[k].0 as int,
            kept[k].1 as int,
            crate::geometry::COINCIDENT_TOLERANCE as int,
        ));
    }
}

/// What a flag feels is a pin near it.
proof fn lemma_feels(
    groups: Seq<PinGroup>,
    uuids: Seq<Seq<char>>,
    goes: bool,
    flag: (i64, i64),
) -> (place: (i64, i64))
    requires
        touches(deduped(places_of(groups, uuids, goes, groups.len())), flag.0, flag.1),
    ensures
        pin_at(groups, uuids, goes, place),
        near_by(flag, place),
{
    let places = places_of(groups, uuids, goes, groups.len());
    let kept = deduped(places);
    let k = choose|k: int|
        0 <= k < kept.len() && crate::geometry::coincident(
            flag.0 as int,
            flag.1 as int,
            (#[trigger] kept[k]).0 as int,
            kept[k].1 as int,
            crate::geometry::COINCIDENT_TOLERANCE as int,
        );
    lemma_kept(places);
    assert(places.contains(kept[k]));
    lemma_places(groups, uuids, goes, groups.len(), kept[k]);
    kept[k]
}

/// A flag near any pin of a deleted unit, and near no pin that stays, goes
/// along. Left out is a flag near a pin only that another pin of the deleted
/// units stands for: one near that pin but not near the flag.
pub proof fn law_a_flag_goes_with_its_pin(
    groups: Seq<PinGroup>,
    uuids: Seq<Seq<char>>,
    markers: Seq<NoConnect>,
    m: int,
    place: (i64, i64),
)
    requires
        0 <= m < markers.len(),
        pin_at(groups, uuids, true, place),
        near_by((markers[m].x, markers[m].y), place),
        speaks_for_its_neighbours(
            groups,
            uuids,
            true,
            place,
            (markers[m].x, markers[m].y),
        ),
        forall|other: (i64, i64)| #[trigger]
            pin_at(groups, uuids, false, other) ==> !near_by((markers[m].x, markers[m].y), other),
    ensures
        goes_along(
            markers[m],
            affected_places(groups, uuids),
            remaining_places(groups, uuids),
        ),
        marker_set(
            markers,
            affected_places(groups, uuids),
            remaining_places(groups, uuids),
        ).contains(markers[m].uuid->0@),
{
    let flag = (markers[m].x, markers[m].y);
    lemma_felt(groups, uuids, true, place, flag);
    if touches(remaining_places(groups, uuids), flag.0, flag.1) {
        let other = lemma_feels(groups, uuids, false, flag);
    }
}

/// A flag near a pin that stays stays. Left out is a flag near a pin only that
/// another pin that stays stands for: one near that pin but not near the flag.
pub proof fn law_a_flag_stays_with_a_pin_that_stays(
    groups: Seq<PinGroup>,
    uuids: Seq<Seq<char>>,
    marker: NoConnect,
    place: (i64, i64),
)
    requires
        pin_at(groups, uuids, false, place),
        near_by((marker.x, marker.y), place),
        speaks_for_its_neighbours(groups, uuids, false, place, (marker.x, marker.y)),
    ensures
        !goes_along(marker, affected_places(groups, uuids), remaining_places(groups, uuids)),
{
    lemma_felt(groups, uuids, false, place, (marker.x, marker.y));
}

/// What goes along is a flag near a pin of a deleted unit.
pub proof fn law_only_flags_of_deleted_pins_go(
    groups: Seq<PinGroup>,
    uuids: Seq<Seq<char>>,
    markers: Seq<NoConnect>,
    uuid: Seq<char>,
)
    requires
        marker_set(
            markers,
            affected_places(groups, uuids),
            remaining_places(groups, uuids),
        ).contains(uuid),
    ensures
        exists|m: int, place: (i64, i64)|
            0 <= m < markers.len() && (#[trigger] markers[m]).uuid->0@ == uuid
                && #[trigger] pin_at(groups, uuids, true, place) && near_by(
                (markers[m].x, markers[m].y),
                place,
            ),
{
    let affected = affected_places(groups, uuids);
    let remaining = remaining_places(groups, uuids);
    let m = choose|m: int|
        0 <= m < markers.len() && goes_along(#[trigger] markers[m], affected, remaining)
            && markers[m].uuid->0@ == uuid;
    let place = lemma_feels(groups, uuids, true, (markers[m].x, markers[m].y));
    assert(markers[m].uuid->0@ == uuid && pin_at(groups, uuids, true, place));
}

/// The instance is one that is asked for.
pub open spec fn is_asked_for(
    instances: Seq<PlacedInstance>,
    references: Seq<Seq<char>>,
    i: int,
) -> bool {
    0 <= i < instances.len() && references.contains(instances[i].reference@)
}

/// A deletion can be carried out: something is asked for, all of it is there,
/// every unit that it is about has an identifier that is that of a symbol and of
/// no other unit, and no unit of a component is placed twice.
pub open spec fn can_be_deleted(
    references: Seq<Seq<char>>,
    item_uuids: Seq<Seq<char>>,
    items: Map<Seq<char>, ItemView>,
    instances: Seq<PlacedInstance>,
) -> bool {
    &&& references.len() > 0 || item_uuids.len() > 0
    &&& forall|k: int| 0 <= k < item_uuids.len() ==> items.contains_key(#[trigger] item_uuids[k])
    &&& forall|k: int|
        0 <= k < references.len() ==> #[trigger] is_placed(instances, references[k])
    &&& forall|i: int| #[trigger]
        is_asked_for(instances, references, i) ==> instances[i].uuid is Some && items.contains_key(
            instances[i].uuid->0@,
        ) && items[instances[i].uuid->0@].kind == "symbol"@
    &&& forall|i: int, j: int|
        i < j && #[trigger] is_asked_for(instances, references, i) && #[trigger] is_asked_for(
            instances,
            references,
            j,
        ) ==> instances[i].uuid->0@ != instances[j].uuid->0@ && !(instances[i].reference@
            == instances[j].reference@ && instances[i].unit == instances[j].unit)
}

/// An instance has this reference.
pub open spec fn is_placed(instances: Seq<PlacedInstance>, reference: Seq<char>) -> bool {
    exists|i: int| 0 <= i < instances.len() && (#[trigger] instances[i]).reference@ == reference
}

/// Exactly the requests that can be carried out are accepted. An accepted one
/// is about exactly the units of the references asked for.
#[verifier::spinoff_prover]
pub proof fn law_a_selection_is_exactly_what_is_asked_for(
    path: Seq<char>,
    references: Seq<Seq<char>>,
    item_uuids: Seq<Seq<char>>,
    items: Map<Seq<char>, ItemView>,
    instances: Seq<PlacedInstance>,
    res: Result<DeletionTargets, ComponentDeleteTargetError>,
)
    requires
        selection_outcome(path, references, item_uuids, items, instances, res),
    ensures
        res is Ok <==> can_be_deleted(references, item_uuids, items, instances),
        res matches Ok(targets) ==> {
            &&& texts(targets.item_uuids@) == item_uuids
            &&& strictly_ordered(texts(targets.unit_uuids@))
            &&& forall|uuid: Seq<char>| #[trigger]
                texts(targets.unit_uuids@).contains(uuid) <==> exists|i: int| #[trigger]
                    is_asked_for(instances, references, i) && instances[i].uuid->0@ == uuid
        },
{
    let at = selected(instances, references);
    let uuids = uuid_list(instances, at);
    let all = ordered_list_of(uuids.to_set());
    lemma_selected(instances, references);
    lemma_absent(item_uuids, items.dom());
    lemma_absent(references, references_of(instances));
    lemma_instance_faults(path, items, instances, at);
    assert(forall|k: int|
        0 <= k < references.len() ==> (references_of(instances).contains(#[trigger] references[k])
            <==> is_placed(instances, references[k])));
    crate::text::lemma_can_be_ordered(Seq::empty(), uuids, uuids.to_set());
    lemma_distinct_list(uuids);
    assert forall|k: int| 0 <= k < uuids.len() implies #[trigger] uuids[k]
        == instances[at[k]].uuid->0@ by {}
    if can_be_deleted(references, item_uuids, items, instances) {
        assert forall|k: int| 0 <= k < at.len() implies instance_fault(
            path,
            items,
            instances[#[trigger] at[k]],
        ) is None by {
            assert(is_asked_for(instances, references, at[k]));
        }
        assert forall|r: Seq<char>, u: u32| !#[trigger] placed_twice(instances, at, r, u) by {
            lemma_unit_pairs(instances, at, r, u);
            if placed_twice(instances, at, r, u) {
                let (p, q) = choose|p: int, q: int|
                    0 <= p < q < at.len() && is_unit(instances[#[trigger] at[p]], r, u) && is_unit(
                        instances[#[trigger] at[q]],
                        r,
                        u,
                    );
                assert(is_asked_for(instances, references, at[p]));
                assert(is_asked_for(instances, references, at[q]));
            }
        }
        assert forall|p: int, q: int| 0 <= p < q < uuids.len() implies uuids[p] != uuids[q] by {
            assert(is_asked_for(instances, references, at[p]));
            assert(is_asked_for(instances, references, at[q]));
        }
    }
    if res is Ok {
        assert forall|i: int, j: int|
            i < j && #[trigger] is_asked_for(instances, references, i) && #[trigger] is_asked_for(
                instances,
                references,
                j,
            ) implies instances[i].uuid->0@ != instances[j].uuid->0@ && !(
        instances[i].reference@ == instances[j].reference@ && instances[i].unit
            == instances[j].unit) by {
            let (p, q) = (at.index_of(i), at.index_of(j));
            assert(at[p] == i && at[q] == j);
            if p >= q {
                assert(at[q] < at[p] || p == q);
            }
            assert(uuids[p] != uuids[q]);
            let (r, u) = (instances[i].reference@, instances[i].unit);
            lemma_unit_pairs(instances, at, r, u);
            assert(!placed_twice(instances, at, r, u));
            if instances[j].reference@ == r && instances[j].unit == u {
                assert(is_unit(instances[at[p]], r, u) && is_unit(instances[at[q]], r, u));
            }
        }
        assert forall|i: int| #[trigger] is_asked_for(instances, references, i) implies
            instances[i].uuid is Some && items.contains_key(instances[i].uuid->0@)
            && items[instances[i].uuid->0@].kind == "symbol"@ by {
            let p = at.index_of(i);
            assert(instance_fault(path, items, instances[at[p]]) is None);
        }
        let targets = res->Ok_0;
        assert forall|uuid: Seq<char>| #[trigger]
            texts(targets.unit_uuids@).contains(uuid) <==> exists|i: int| #[trigger]
                is_asked_for(instances, references, i) && instances[i].uuid->0@ == uuid by {
            assert(all.contains(uuid) <==> uuids.to_set().contains(uuid));
            if uuids.contains(uuid) {
                let k = uuids.index_of(uuid);
                assert(is_asked_for(instances, references, at[k]));
            }
            if exists|i: int| #[trigger]
                is_asked_for(instances, references, i) && instances[i].uuid->0@ == uuid {
                let i = choose|i: int| #[trigger]
                    is_asked_for(instances, references, i) && instances[i].uuid->0@ == uuid;
                let k = at.index_of(i);
                assert(uuids[k] == uuid);
            }
        }
    }
}

proof fn lemma_selected(instances: Seq<PlacedInstance>, references: Seq<Seq<char>>)
    ensures
        ({
            let at = selected(instances, references);
            &&& forall|k: int|
                0 <= k < at.len() ==> is_asked_for(instances, references, #[trigger] at[k])
            &&& forall|i: int| #[trigger] is_asked_for(instances, references, i) ==> at.contains(i)
            &&& forall|p: int, q: int|
                0 <= p < q < at.len() ==> #[trigger] at[p] < #[trigger] at[q]
        }),
{
    crate::deletion::lemma_selected_positions(instances, references);
}

proof fn lemma_absent(wanted: Seq<Seq<char>>, present: Set<Seq<char>>)
    ensures
        first_absent(wanted, present) is None <==> forall|k: int|
            0 <= k < wanted.len() ==> present.contains(#[trigger] wanted[k]),
    decreases wanted.len(),
{
    if wanted.len() > 0 {
        let rest = wanted.drop_last();
        lemma_absent(rest, present);
        assert(wanted[wanted.len() - 1] == wanted.last());
        if forall|k: int| 0 <= k < wanted.len() ==> present.contains(#[trigger] wanted[k]) {
            assert forall|k: int| 0 <= k < rest.len() implies present.contains(
                #[trigger] rest[k],
            ) by {
                assert(rest[k] == wanted[k]);
            }
        }
        if first_absent(wanted, present) is None {
            assert forall|k: int| 0 <= k < wanted.len() implies present.contains(
                #[trigger] wanted[k],
            ) by {
                if k < rest.len() {
                    assert(rest[k] == wanted[k]);
                }
            }
        }
    }
}

proof fn lemma_instance_faults(
    path: Seq<char>,
    items: Map<Seq<char>, ItemView>,
    instances: Seq<PlacedInstance>,
    at: Seq<int>,
)
    ensures
        first_instance_fault(path, items, instances, at) is None <==> forall|k: int|
            0 <= k < at.len() ==> instance_fault(path, items, instances[#[trigger] at[k]]) is None,
    decreases at.len(),
{
    if at.len() > 0 {
        let rest = at.drop_last();
        lemma_instance_faults(path, items, instances, rest);
        assert(at[at.len() - 1] == at.last());
        if forall|k: int|
            0 <= k < at.len() ==> instance_fault(
                path,
                items,
                instances[#[trigger] at[k]],
            ) is None {
            assert forall|k: int| 0 <= k < rest.len() implies instance_fault(
                path,
                items,
                instances[#[trigger] rest[k]],
            ) is None by {
                assert(rest[k] == at[k]);
            }
        }
        if first_instance_fault(path, items, instances, at) is None {
            assert forall|k: int| 0 <= k < at.len() implies instance_fault(
                path,
                items,
                instances[#[trigger] at[k]],
            ) is None by {
                if k < rest.len() {
                    assert(rest[k] == at[k]);
                }
            }
        }
    }
}

spec fn is_unit(instance: PlacedInstance, reference: Seq<char>, unit: u32) -> bool {
    instance.reference@ == reference && instance.unit == unit
}

proof fn lemma_unit_pairs(
    instances: Seq<PlacedInstance>,
    at: Seq<int>,
    reference: Seq<char>,
    unit: u32,
)
    ensures
        uuids_of_unit(instances, at, reference, unit).len() > 0 <==> exists|p: int|
            0 <= p < at.len() && is_unit(instances[#[trigger] at[p]], reference, unit),
        uuids_of_unit(instances, at, reference, unit).len() > 1 <==> exists|p: int, q: int|
            0 <= p < q < at.len() && is_unit(instances[#[trigger] at[p]], reference, unit)
                && is_unit(instances[#[trigger] at[q]], reference, unit),
    decreases at.len(),
{
    if at.len() > 0 {
        let rest = at.drop_last();
        let last = at.len() - 1;
        lemma_unit_pairs(instances, rest, reference, unit);
        assert(at[last] == at.last());
        assert forall|p: int| 0 <= p < rest.len() implies #[trigger] rest[p] == at[p] by {}
        if uuids_of_unit(instances, rest, reference, unit).len() > 0 {
            let p = choose|p: int|
                0 <= p < rest.len() && is_unit(instances[#[trigger] rest[p]], reference, unit);
            assert(at[p] == rest[p]);
            assert(is_unit(instances[at[p]], reference, unit));
            if is_unit(instances[at[last]], reference, unit) {
                assert(0 <= p < last < at.len());
            }
        }
        if uuids_of_unit(instances, rest, reference, unit).len() > 1 {
            let (p, q) = choose|p: int, q: int|
                0 <= p < q < rest.len() && is_unit(
                    instances[#[trigger] rest[p]],
                    reference,
                    unit,
                ) && is_unit(instances[#[trigger] rest[q]], reference, unit);
            assert(at[p] == rest[p] && at[q] == rest[q]);
        }
        if exists|p: int|
            0 <= p < at.len() && is_unit(instances[#[trigger] at[p]], reference, unit) {
            let p = choose|p: int|
                0 <= p < at.len() && is_unit(instances[#[trigger] at[p]], reference, unit);
            if p < last {
                assert(rest[p] == at[p]);
            }
        }
        if exists|p: int, q: int|
            0 <= p < q < at.len() && is_unit(instances[#[trigger] at[p]], reference, unit)
                && is_unit(instances[#[trigger] at[q]], reference, unit) {
            let (p, q) = choose|p: int, q: int|
                0 <= p < q < at.len() && is_unit(instances[#[trigger] at[p]], reference, unit)
                    && is_unit(instances[#[trigger] at[q]], reference, unit);
            assert(rest[p] == at[p]);
            if q < last {
                assert(rest[q] == at[q]);
            }
        }
    }
}

/// Putting a list in order keeps its length exactly if nothing occurs twice.
proof fn lemma_distinct_list(list: Seq<Seq<char>>)
    ensures
        ordered_list_of(list.to_set()).len() == list.len() <==> list.no_duplicates(),
{
    let members = list.to_set();
    let ordered = ordered_list_of(members);
    crate::text::lemma_can_be_ordered(Seq::empty(), list, members);
    assert(ordered.no_duplicates()) by {
        assert forall|i: int, j: int| 0 <= i < j < ordered.len() implies ordered[i]
            != ordered[j] by {
            assert(crate::text::text_before(ordered[i], ordered[j]));
            crate::text::lemma_text_before_irreflexive(ordered[i]);
        }
    }
    assert(ordered.to_set() =~= members);
    ordered.unique_seq_to_set();
    if list.no_duplicates() {
        list.unique_seq_to_set();
    } else {
        list.lemma_cardinality_of_set();
        if ordered.len() == list.len() {
            list.lemma_no_dup_set_cardinality();
        }
    }
}

/// A deletion is confirmed exactly if no unit of the references is left and none
/// of the items that were to go is there.
pub proof fn law_a_deletion_is_confirmed_when_all_is_gone(
    targets: DeletionTargets,
    markers: Seq<Seq<char>>,
    instances: Seq<PlacedInstance>,
    items: Map<Seq<char>, ItemView>,
)
    ensures
        first_left(
            targets.units_by_reference.keys(),
            instances,
            targets.units_by_reference.keys().len(),
        ) is None <==> forall|i: int|
            0 <= i < instances.len() ==> !targets.units_by_reference.keys().contains(
                (#[trigger] instances[i]).reference@,
            ),
        first_present(doomed(targets, markers), items.dom()) is None <==> forall|uuid: Seq<char>| #[trigger]
            items.contains_key(uuid) ==> !texts(targets.unit_uuids@).contains(uuid)
                && !markers.contains(uuid) && !texts(targets.item_uuids@).contains(uuid),
{
    let names = targets.units_by_reference.keys();
    lemma_left(names, instances, names.len());
    if first_left(names, instances, names.len()) is None {
        assert forall|i: int| 0 <= i < instances.len() implies !names.contains(
            (#[trigger] instances[i]).reference@,
        ) by {
            if names.contains(instances[i].reference@) {
                let k = names.index_of(instances[i].reference@);
                assert(!is_placed(instances, names[k]));
            }
        }
    } else if forall|i: int|
        0 <= i < instances.len() ==> !names.contains((#[trigger] instances[i]).reference@) {
        assert forall|k: int| 0 <= k < names.len() implies !is_placed(
            instances,
            #[trigger] names[k],
        ) by {
            if is_placed(instances, names[k]) {
                let i = choose|i: int|
                    0 <= i < instances.len() && (#[trigger] instances[i]).reference@ == names[k];
                assert(names.contains(instances[i].reference@));
            }
        }
    }
    let all = doomed(targets, markers);
    let (a, b) = (texts(targets.unit_uuids@), texts(targets.item_uuids@));
    lemma_present(all, items.dom());
    if first_present(all, items.dom()) is None {
        assert forall|uuid: Seq<char>| #[trigger] items.contains_key(uuid) implies !a.contains(uuid)
            && !markers.contains(uuid) && !b.contains(uuid) by {
            if a.contains(uuid) {
                assert(all[a.index_of(uuid)] == uuid);
            }
            if markers.contains(uuid) {
                assert(all[a.len() + markers.index_of(uuid)] == uuid);
            }
            if b.contains(uuid) {
                assert(all[a.len() + markers.len() + b.index_of(uuid)] == uuid);
            }
        }
    } else if forall|uuid: Seq<char>| #[trigger]
        items.contains_key(uuid) ==> !a.contains(uuid) && !markers.contains(uuid) && !b.contains(
            uuid,
        ) {
        assert forall|k: int| 0 <= k < all.len() implies !items.dom().contains(
            #[trigger] all[k],
        ) by {
            let uuid = all[k];
            if items.contains_key(uuid) {
                if k < a.len() {
                    assert(a[k] == uuid);
                } else if k < a.len() + markers.len() {
                    assert(markers[k - a.len()] == uuid);
                } else {
                    assert(b[k - a.len() - markers.len()] == uuid);
                }
            }
        }
    }
}

proof fn lemma_left(names: Seq<Seq<char>>, instances: Seq<PlacedInstance>, n: nat)
    requires
        n <= names.len(),
    ensures
        first_left(names, instances, n) is None <==> forall|k: int|
            0 <= k < n ==> !is_placed(instances, #[trigger] names[k]),
    decreases n,
{
    if n > 0 {
        lemma_left(names, instances, (n - 1) as nat);
        lemma_count(instances, names[n - 1], instances.len());
    }
}

proof fn lemma_count(instances: Seq<PlacedInstance>, reference: Seq<char>, n: nat)
    requires
        n <= instances.len(),
    ensures
        instance_count(instances, reference, n) > 0 <==> exists|i: int|
            0 <= i < n && (#[trigger] instances[i]).reference@ == reference,
    decreases n,
{
    if n > 0 {
        lemma_count(instances, reference, (n - 1) as nat);
    }
}

proof fn lemma_present(uuids: Seq<Seq<char>>, items: Set<Seq<char>>)
    ensures
        first_present(uuids, items) is None <==> forall|k: int|
            0 <= k < uuids.len() ==> !items.contains(#[trigger] uuids[k]),
    decreases uuids.len(),
{
    if uuids.len() > 0 {
        let rest = uuids.drop_last();
        lemma_present(rest, items);
        assert(uuids[uuids.len() - 1] == uuids.last());
        if forall|k: int| 0 <= k < uuids.len() ==> !items.contains(#[trigger] uuids[k]) {
            assert forall|k: int| 0 <= k < rest.len() implies !items.contains(
                #[trigger] rest[k],
            ) by {
                assert(rest[k] == uuids[k]);
            }
        }
        if first_present(uuids, items) is None {
            assert forall|k: int| 0 <= k < uuids.len() implies !items.contains(
                #[trigger] uuids[k],
            ) by {
                if k < rest.len() {
                    assert(rest[k] == uuids[k]);
                }
            }
        }
    }
}

/// A junction is an item of the kind `junction`.
pub proof fn law_junctions_are_told_by_their_kind(
    items: Map<Seq<char>, ItemView>,
    uuid: Seq<char>,
)
    ensures
        junctions(items).contains(uuid) <==> items.contains_key(uuid) && items[uuid].kind
            == "junction"@,
{
}

/// The block names this identifier.
pub open spec fn has_uuid(block: TopLevelBlock, uuid: Seq<char>) -> bool {
    block.node matches Ok(node) && node@.value_of("uuid"@) == Some(uuid)
}

/// A file is indexed exactly if it has blocks, all of them parse and no
/// identifier occurs twice. The index then holds every block with an identifier
/// under it, with its word and its text, and nothing else.
pub proof fn law_every_block_is_indexed(path: Seq<char>, blocks: Seq<TopLevelBlock>)
    ensures
        indexed(path, blocks) is Ok <==> {
            &&& blocks.len() > 0
            &&& forall|i: int| 0 <= i < blocks.len() ==> (#[trigger] blocks[i]).node is Ok
            &&& forall|i: int, j: int, uuid: Seq<char>|
                0 <= i < j < blocks.len() && #[trigger] has_uuid(blocks[i], uuid)
                    ==> !#[trigger] has_uuid(blocks[j], uuid)
        },
        indexed(path, blocks) matches Ok(items) ==> {
            &&& forall|i: int, uuid: Seq<char>|
                0 <= i < blocks.len() && #[trigger] has_uuid(blocks[i], uuid)
                    ==> items.contains_key(uuid) && items[uuid] == (ItemView {
                    kind: match blocks[i].node->Ok_0@.text_at(0) {
                        Some(text) => text,
                        None => "unknown"@,
                    },
                    source: blocks[i].source@,
                })
            &&& forall|uuid: Seq<char>| #[trigger]
                items.contains_key(uuid) ==> exists|i: int|
                    0 <= i < blocks.len() && #[trigger] has_uuid(blocks[i], uuid)
        },
{
    lemma_index(path, blocks, blocks.len());
}

proof fn lemma_index(path: Seq<char>, blocks: Seq<TopLevelBlock>, n: nat)
    requires
        n <= blocks.len(),
    ensures
        with_blocks(path, blocks, n) is Ok <==> {
            &&& forall|i: int| 0 <= i < n ==> (#[trigger] blocks[i]).node is Ok
            &&& forall|i: int, j: int, uuid: Seq<char>|
                0 <= i < j < n && #[trigger] has_uuid(blocks[i], uuid) ==> !#[trigger] has_uuid(
                    blocks[j],
                    uuid,
                )
        },
        with_blocks(path, blocks, n) matches Ok(items) ==> {
            &&& forall|i: int, uuid: Seq<char>|
                0 <= i < n && #[trigger] has_uuid(blocks[i], uuid) ==> items.contains_key(uuid)
                    && items[uuid] == (ItemView {
                    kind: match blocks[i].node->Ok_0@.text_at(0) {
                        Some(text) => text,
                        None => "unknown"@,
                    },
                    source: blocks[i].source@,
                })
            &&& forall|uuid: Seq<char>| #[trigger]
                items.contains_key(uuid) ==> exists|i: int|
                    0 <= i < n && #[trigger] has_uuid(blocks[i], uuid)
        },
    decreases n,
{
    if n > 0 {
        lemma_index(path, blocks, (n - 1) as nat);
        let block = blocks[n - 1];
        if with_blocks(path, blocks, (n - 1) as nat) is Ok && block.node is Ok {
            let before = with_blocks(path, blocks, (n - 1) as nat)->Ok_0;
            if block.node->Ok_0@.value_of("uuid"@) is Some {
                let own = block.node->Ok_0@.value_of("uuid"@)->0;
                assert(has_uuid(blocks[n - 1], own));
                if before.contains_key(own) {
                    let i = choose|i: int| 0 <= i < n - 1 && #[trigger] has_uuid(blocks[i], own);
                    assert(has_uuid(blocks[i], own) && has_uuid(blocks[n - 1], own));
                } else {
                    assert forall|i: int, j: int, uuid: Seq<char>|
                        0 <= i < j < n && #[trigger] has_uuid(blocks[i], uuid) implies
                        !#[trigger] has_uuid(blocks[j], uuid) by {}
                    let items = before.insert(
                        own,
                        ItemView { kind: kind_of(block.node->Ok_0@), source: block.source@ },
                    );
                    assert(with_blocks(path, blocks, n) == Ok::<
                        Map<Seq<char>, ItemView>,
                        crate::tool_error::TargetFault,
                    >(items));
                    assert forall|uuid: Seq<char>| #[trigger] items.contains_key(uuid) implies
                        exists|i: int| 0 <= i < n && #[trigger] has_uuid(blocks[i], uuid) by {
                        if uuid != own {
                            assert(before.contains_key(uuid));
                        }
                    }
                }
            }
        }
    }
}

/// The units of a deletion are told by reference, each reference with exactly
/// its own.
#[verifier::spinoff_prover]
pub proof fn law_deleted_units_are_told_by_reference(
    path: Seq<char>,
    references: Seq<Seq<char>>,
    item_uuids: Seq<Seq<char>>,
    items: Map<Seq<char>, ItemView>,
    instances: Seq<PlacedInstance>,
    res: Result<DeletionTargets, ComponentDeleteTargetError>,
)
    requires
        selection_outcome(path, references, item_uuids, items, instances, res),
        res is Ok,
    ensures
        res->Ok_0.units_by_reference.keys() == references,
        forall|k: int, uuid: Seq<char>|
            0 <= k < references.len() ==> (#[trigger] texts(
                res->Ok_0.units_by_reference.values()[k]@,
            ).contains(uuid) <==> exists|i: int|
                0 <= i < instances.len() && (#[trigger] instances[i]).reference@ == references[k]
                    && instances[i].uuid->0@ == uuid),
        references.len() > 0 ==> res->Ok_0.label@ == crate::text::joined(references, ", "@),
        references.len() == 0 ==> res->Ok_0.label@ == "selected items"@,
{
    let at = selected(instances, references);
    let uuids = uuid_list(instances, at);
    lemma_selected(instances, references);
    assert forall|k: int, uuid: Seq<char>| 0 <= k < references.len() implies (#[trigger] texts(
        res->Ok_0.units_by_reference.values()[k]@,
    ).contains(uuid) <==> exists|i: int|
        0 <= i < instances.len() && (#[trigger] instances[i]).reference@ == references[k]
            && instances[i].uuid->0@ == uuid) by {
        let members = uuids_of_reference(instances, at, references[k]);
        let own = Seq::new(
            at.len(),
            |i: int|
                if instances[at[i]].reference@ == references[k] {
                    Some(instances[at[i]].uuid->0@)
                } else {
                    None
                },
        );
        assert forall|x: Seq<char>| #[trigger] members.contains(x) <==> own.contains(Some(x)) by {
            if members.contains(x) {
                let i = choose|i: int|
                    0 <= i < at.len() && (#[trigger] instances[at[i]]).reference@ == references[k]
                        && instances[at[i]].uuid->0@ == x;
                assert(own[i] == Some(x));
            }
            if own.contains(Some(x)) {
                let i = own.index_of(Some(x));
                assert(instances[at[i]].reference@ == references[k]);
            }
        }
        lemma_somes_ordered(own, members);
        assert(texts(res->Ok_0.units_by_reference.values()[k]@) == ordered_list_of(members));
        if members.contains(uuid) {
            let i = choose|i: int|
                0 <= i < at.len() && (#[trigger] instances[at[i]]).reference@ == references[k]
                    && instances[at[i]].uuid->0@ == uuid;
            assert(is_asked_for(instances, references, at[i]));
        }
        if exists|i: int|
            0 <= i < instances.len() && (#[trigger] instances[i]).reference@ == references[k]
                && instances[i].uuid->0@ == uuid {
            let i = choose|i: int|
                0 <= i < instances.len() && (#[trigger] instances[i]).reference@ == references[k]
                    && instances[i].uuid->0@ == uuid;
            assert(references.contains(references[k]));
            assert(is_asked_for(instances, references, i));
            assert(at.contains(i));
            let q = at.index_of(i);
            assert(instances[at[q]].reference@ == references[k]);
        }
    }
}

} // verus!
