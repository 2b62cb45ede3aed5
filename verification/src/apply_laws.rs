//! What staging, tallying and counting come to, told from the changes, the
//! items and the copper.

use crate::footprint_item::{text_of_field, FootprintChild, FootprintItem};
use crate::lists::positions_where;
use crate::plan_laws::nearest;
use crate::sync_apply::{
    added_footprints, all_applied, details, drawing_count, extent_of, none_planned, objects_counted,
    one_more, pad_count, shape_detail, shapes_of, staged_at, staged_y, tallied, zones_counted,
    Extent, FootprintShape,
};
use crate::sync_types::{Bounds, CountPair, PlannedChange, Point};
use crate::text_map::TextMap;
use vstd::prelude::*;
use vstd::string::*;

verus! {

/// The change adds a footprint.
pub open spec fn adds(change: PlannedChange, footprint_id: Seq<char>) -> bool {
    change matches PlannedChange::Add { footprint_id: own, .. } && own@ == footprint_id
}

/// Exactly the footprints that a change adds have to be prepared, each once.
pub proof fn law_every_added_footprint_is_prepared(
    changes: Seq<PlannedChange>,
    footprint_id: Seq<char>,
)
    ensures
        added_footprints(changes, changes.len()).contains(footprint_id) <==> exists|i: int|
            0 <= i < changes.len() && adds(#[trigger] changes[i], footprint_id),
        added_footprints(changes, changes.len()).no_duplicates(),
{
    lemma_added(changes, changes.len(), footprint_id);
}

proof fn lemma_added(changes: Seq<PlannedChange>, n: nat, footprint_id: Seq<char>)
    requires
        n <= changes.len(),
    ensures
        added_footprints(changes, n).contains(footprint_id) <==> exists|i: int|
            0 <= i < n && adds(#[trigger] changes[i], footprint_id),
        added_footprints(changes, n).no_duplicates(),
    decreases n,
{
    if n > 0 {
        lemma_added(changes, (n - 1) as nat, footprint_id);
        let rest = added_footprints(changes, (n - 1) as nat);
        let list = added_footprints(changes, n);
        if rest.contains(footprint_id) {
            assert(list[rest.index_of(footprint_id)] == footprint_id);
        }
        if adds(changes[n - 1], footprint_id) && !rest.contains(footprint_id) {
            assert(list[list.len() - 1] == footprint_id);
        }
        if list.contains(footprint_id) && !rest.contains(footprint_id) {
            let q = list.index_of(footprint_id);
            assert(q == rest.len());
            assert(adds(changes[n - 1], footprint_id));
        }
        assert(list.no_duplicates()) by {
            assert forall|i: int, j: int| 0 <= i < j < list.len() implies list[i] != list[j] by {
                assert(list[i] == rest[i]);
                if j < rest.len() {
                    assert(list[j] == rest[j]);
                } else {
                    assert(rest.contains(rest[i]));
                }
            }
        }
    }
}

/// The size of a footprint: the prepared one, or ten millimetres each way.
pub open spec fn size_of(prepared: Map<Seq<char>, Extent>, footprint_id: Seq<char>) -> Extent {
    if prepared.contains_key(footprint_id) {
        prepared[footprint_id]
    } else {
        Extent { width: 10_000_000, height: 10_000_000 }
    }
}

/// An addition stands five millimetres right of the board with half its width
/// more, and half its height below where it starts. The first starts at the top
/// of the board, and each next one five millimetres below the end of the one
/// before it; updates take no room.
pub proof fn law_additions_are_staged_below_each_other(
    changes: Seq<PlannedChange>,
    prepared: Map<Seq<char>, Extent>,
    bounds: Bounds,
    i: int,
)
    requires
        0 <= i < changes.len(),
    ensures
        staged_y(changes, prepared, bounds.min_y, 0) == bounds.min_y,
        match changes[i] {
            PlannedChange::Add { footprint_id, .. } => {
                let size = size_of(prepared, footprint_id@);
                let top = staged_y(changes, prepared, bounds.min_y, i as nat);
                &&& staged_at(changes, prepared, bounds, i) == (Point {
                    x: nearest(bounds.max_x + 5_000_000 + size.width / 2),
                    y: nearest(top + size.height / 2),
                })
                &&& staged_y(changes, prepared, bounds.min_y, (i + 1) as nat) == nearest(
                    top + size.height + 5_000_000,
                )
            },
            PlannedChange::Update { .. } => staged_y(
                changes,
                prepared,
                bounds.min_y,
                (i + 1) as nat,
            ) == staged_y(changes, prepared, bounds.min_y, i as nat),
        },
{
    match changes[i] {
        PlannedChange::Add { footprint_id, .. } => {
            assert(extent_of(prepared, footprint_id@) == size_of(prepared, footprint_id@));
        },
        _ => {},
    }
}

/// The item is a pad, readable or not.
pub open spec fn is_pad(child: FootprintChild) -> bool {
    child is Pad || child is UnreadablePad
}

/// The item is a drawing: a shape or a text.
pub open spec fn is_drawing(child: FootprintChild) -> bool {
    child matches FootprintChild::Other { declared, .. } && (declared@
        == "kiapi.board.types.BoardGraphicShape"@ || declared@ == "kiapi.board.types.BoardText"@)
}

/// A footprint has as many pads and drawings as its items are pads and drawings.
pub proof fn law_a_tally_counts_every_item(items: Seq<FootprintChild>)
    ensures
        pad_count(items) == items.filter(|c: FootprintChild| is_pad(c)).len(),
        drawing_count(items) == items.filter(|c: FootprintChild| is_drawing(c)).len(),
    decreases items.len(),
{
    reveal(Seq::filter);
    if items.len() > 0 {
        law_a_tally_counts_every_item(items.drop_last());
    }
}

/// The footprint is tallied under this reference.
pub open spec fn is_tallied_as(item: FootprintItem, reference: Seq<char>) -> bool {
    item.definition is Some && reference.len() > 0 && text_of_field(item.reference_field)
        == reference
}

/// The tally of a reference is that of the last footprint with it that has a
/// definition; a footprint without a reference is not tallied.
pub proof fn law_the_last_of_a_reference_is_tallied(
    items: Seq<FootprintItem>,
    reference: Seq<char>,
)
    ensures
        shapes_of(items, items.len()).contains_key(reference) <==> exists|i: int|
            0 <= i < items.len() && is_tallied_as(#[trigger] items[i], reference),
        forall|i: int|
            0 <= i < items.len() && is_tallied_as(#[trigger] items[i], reference) && (forall|j: int|
                i < j < items.len() ==> !is_tallied_as(#[trigger] items[j], reference))
                ==> shapes_of(items, items.len())[reference] == (FootprintShape {
                pads: pad_count(items[i].definition->0.items@) as usize,
                drawings: drawing_count(items[i].definition->0.items@) as usize,
            }),
{
    lemma_shapes(items, items.len(), reference);
}

spec fn is_last_tallied(items: Seq<FootprintItem>, n: nat, reference: Seq<char>, i: int) -> bool {
    &&& 0 <= i < n
    &&& is_tallied_as(items[i], reference)
    &&& forall|j: int| i < j < n ==> !is_tallied_as(#[trigger] items[j], reference)
}

proof fn lemma_shapes(items: Seq<FootprintItem>, n: nat, reference: Seq<char>)
    requires
        n <= items.len(),
    ensures
        shapes_of(items, n).contains_key(reference) <==> exists|i: int|
            0 <= i < n && is_tallied_as(#[trigger] items[i], reference),
        forall|i: int| #[trigger]
            is_last_tallied(items, n, reference, i) ==> shapes_of(items, n)[reference] == (
            FootprintShape {
                pads: pad_count(items[i].definition->0.items@) as usize,
                drawings: drawing_count(items[i].definition->0.items@) as usize,
            }),
        forall|i: int|
            0 <= i < items.len() && is_tallied_as(#[trigger] items[i], reference) && (forall|j: int|
                i < j < items.len() ==> !is_tallied_as(#[trigger] items[j], reference)) && n
                == items.len() ==> is_last_tallied(items, n, reference, i),
    decreases n,
{
    if n > 0 {
        lemma_shapes(items, (n - 1) as nat, reference);
        let last = items[n - 1];
        assert(tallied(last) && text_of_field(last.reference_field) == reference
            <==> is_tallied_as(last, reference));
        assert forall|i: int| #[trigger] is_last_tallied(items, n, reference, i) implies shapes_of(
            items,
            n,
        )[reference] == (FootprintShape {
            pads: pad_count(items[i].definition->0.items@) as usize,
            drawings: drawing_count(items[i].definition->0.items@) as usize,
        }) by {
            if i < n - 1 {
                assert(!is_tallied_as(items[n - 1], reference));
                assert(is_last_tallied(items, (n - 1) as nat, reference, i));
            }
        }
    }
}

/// The details of the footprints that gained pads are those with more pads on
/// the board than were sent; the others that differ are reported apart. What the
/// board does not show is not compared.
pub proof fn law_footprints_are_compared_by_shape(
    expected: TextMap<FootprintShape>,
    actual: Map<Seq<char>, FootprintShape>,
)
    ensures
        details(expected, actual, true, expected.keys().len()) == positions_where(
            |i: int|
                actual.contains_key(expected.keys()[i]) && actual[expected.keys()[i]].pads
                    > expected.values()[i].pads,
            expected.keys().len(),
        ).map_values(
            |i: int|
                shape_detail(
                    expected.keys()[i],
                    expected.values()[i],
                    actual[expected.keys()[i]],
                ),
        ),
        details(expected, actual, false, expected.keys().len()) == positions_where(
            |i: int|
                actual.contains_key(expected.keys()[i]) && actual[expected.keys()[i]].pads
                    <= expected.values()[i].pads && (actual[expected.keys()[i]].pads
                    != expected.values()[i].pads || actual[expected.keys()[i]].drawings
                    != expected.values()[i].drawings),
            expected.keys().len(),
        ).map_values(
            |i: int|
                shape_detail(
                    expected.keys()[i],
                    expected.values()[i],
                    actual[expected.keys()[i]],
                ),
        ),
{
    lemma_gained(expected, actual, expected.keys().len());
    lemma_differing(expected, actual, expected.keys().len());
}

proof fn lemma_gained(
    expected: TextMap<FootprintShape>,
    actual: Map<Seq<char>, FootprintShape>,
    n: nat,
)
    ensures
        details(expected, actual, true, n) == positions_where(
            |i: int|
                actual.contains_key(expected.keys()[i]) && actual[expected.keys()[i]].pads
                    > expected.values()[i].pads,
            n,
        ).map_values(
            |i: int|
                shape_detail(
                    expected.keys()[i],
                    expected.values()[i],
                    actual[expected.keys()[i]],
                ),
        ),
    decreases n,
{
    if n > 0 {
        lemma_gained(expected, actual, (n - 1) as nat);
    }
    assert(details(expected, actual, true, n) =~= positions_where(
        |i: int|
            actual.contains_key(expected.keys()[i]) && actual[expected.keys()[i]].pads
                > expected.values()[i].pads,
        n,
    ).map_values(
        |i: int|
            shape_detail(expected.keys()[i], expected.values()[i], actual[expected.keys()[i]]),
    ));
}

proof fn lemma_differing(
    expected: TextMap<FootprintShape>,
    actual: Map<Seq<char>, FootprintShape>,
    n: nat,
)
    ensures
        details(expected, actual, false, n) == positions_where(
            |i: int|
                actual.contains_key(expected.keys()[i]) && actual[expected.keys()[i]].pads
                    <= expected.values()[i].pads && (actual[expected.keys()[i]].pads
                    != expected.values()[i].pads || actual[expected.keys()[i]].drawings
                    != expected.values()[i].drawings),
            n,
        ).map_values(
            |i: int|
                shape_detail(
                    expected.keys()[i],
                    expected.values()[i],
                    actual[expected.keys()[i]],
                ),
        ),
    decreases n,
{
    if n > 0 {
        lemma_differing(expected, actual, (n - 1) as nat);
    }
    assert(details(expected, actual, false, n) =~= positions_where(
        |i: int|
            actual.contains_key(expected.keys()[i]) && actual[expected.keys()[i]].pads
                <= expected.values()[i].pads && (actual[expected.keys()[i]].pads
                != expected.values()[i].pads || actual[expected.keys()[i]].drawings
                != expected.values()[i].drawings),
        n,
    ).map_values(
        |i: int|
            shape_detail(expected.keys()[i], expected.values()[i], actual[expected.keys()[i]]),
    ));
}

/// The object is on this net.
pub open spec fn is_on(object: Option<String>, net: Seq<char>) -> bool {
    object matches Some(name) && name@ == net
}

/// A net counts as routed exactly if an object is on it and it has a name, as
/// often as objects are. On a board with zones every net of the board counts.
pub proof fn law_a_net_is_routed_by_its_copper(
    objects: Seq<Option<String>>,
    nets: Seq<Seq<char>>,
    net: Seq<char>,
)
    requires
        objects.len() <= usize::MAX,
    ensures
        objects_counted(objects).contains_key(net) <==> net.len() > 0 && exists|i: int|
            0 <= i < objects.len() && is_on(#[trigger] objects[i], net),
        objects_counted(objects).contains_key(net) ==> objects_counted(objects)[net]
            == objects.filter(|object: Option<String>| is_on(object, net)).len(),
        zones_counted(objects_counted(objects), nets).contains_key(net) <==> objects_counted(
            objects,
        ).contains_key(net) || nets.contains(net),
{
    lemma_objects(objects, net);
    lemma_zones(objects_counted(objects), nets, net);
}

proof fn lemma_objects(objects: Seq<Option<String>>, net: Seq<char>)
    requires
        objects.len() <= usize::MAX,
    ensures
        objects_counted(objects).contains_key(net) <==> net.len() > 0 && exists|i: int|
            0 <= i < objects.len() && is_on(#[trigger] objects[i], net),
        objects_counted(objects).contains_key(net) ==> objects_counted(objects)[net]
            == objects.filter(|object: Option<String>| is_on(object, net)).len(),
        !objects_counted(objects).contains_key(net) && net.len() > 0 ==> objects.filter(
            |object: Option<String>| is_on(object, net),
        ).len() == 0,
        objects.filter(|object: Option<String>| is_on(object, net)).len() <= objects.len(),
    decreases objects.len(),
{
    reveal(Seq::filter);
    if objects.len() > 0 {
        let rest = objects.drop_last();
        lemma_objects(rest, net);
        assert(objects[objects.len() - 1] == objects.last());
        if exists|i: int| 0 <= i < rest.len() && is_on(#[trigger] rest[i], net) {
            let i = choose|i: int| 0 <= i < rest.len() && is_on(#[trigger] rest[i], net);
            assert(objects[i] == rest[i]);
        }
        if exists|i: int| 0 <= i < objects.len() && is_on(#[trigger] objects[i], net) {
            let i = choose|i: int| 0 <= i < objects.len() && is_on(#[trigger] objects[i], net);
            if i < rest.len() {
                assert(rest[i] == objects[i]);
            }
        }
    }
}

proof fn lemma_zones(start: Map<Seq<char>, usize>, nets: Seq<Seq<char>>, net: Seq<char>)
    ensures
        zones_counted(start, nets).contains_key(net) <==> start.contains_key(net) || nets.contains(
            net,
        ),
    decreases nets.len(),
{
    if nets.len() > 0 {
        let rest = nets.drop_last();
        lemma_zones(start, rest, net);
        assert(nets[nets.len() - 1] == nets.last());
        if rest.contains(net) {
            assert(nets[rest.index_of(net)] == net);
        }
        if nets.contains(net) {
            let i = nets.index_of(net);
            if i < rest.len() {
                assert(rest[i] == net);
            }
        }
    }
}

/// A conflict adds one to the planned conflicts, a refusal leaves nothing
/// planned, and applying applies what was planned.
pub proof fn law_counts_change_one_way(count: CountPair)
    ensures
        one_more(count).applied == count.applied,
        count.planned < usize::MAX ==> one_more(count).planned == count.planned + 1,
        none_planned(count).planned == 0 && none_planned(count).applied == count.applied,
        all_applied(count).planned == count.planned && all_applied(count).applied == count.planned,
{
}

} // verus!
