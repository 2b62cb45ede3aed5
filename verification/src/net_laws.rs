//! What the nets of a sheet are, told from its wires, labels and junctions, and
//! what the questions about them answer.

use crate::connected::{carries, joined, linked_to};
use crate::connectivity::{
    first_node, is_attachment, is_wire_link, label_name, label_places, node_at, second_node,
    sheet_links, SheetItems,
};
use crate::geometry::{micro, on_wire, COINCIDENT_TOLERANCE, Label, Wire};
use crate::geometry_laws::{close, law_places_on_a_wire_lie_on_it, lies_on};
use crate::links::{
    is_path, lemma_reach_back, lemma_reach_link, lemma_reach_on, lemma_reach_self, linked,
};
use crate::net_queries::{
    answers, earlier_pin, is_pin, label_here, lists_net, nameless, names_net, names_place,
    node_here, on_net, pin_node, pins_of, wire_here, wire_on_net, PinNet,
};
use crate::sheet_reports::{first_on_net, label_node, names_on, same_net, shorts};
use crate::single_pin::{ComponentPin, PlacedComponent};
use crate::text::{ordered_list_of, strictly_ordered};
use vstd::prelude::*;

verus! {

/// A relation between nodes that joins the ends of every wire, and every label
/// and junction to each wire that it lies on, within a hundredth of a
/// millimetre.
pub open spec fn joins_the_sheet(
    items: SheetItems,
    same: spec_fn((i64, i64), (i64, i64)) -> bool,
) -> bool {
    &&& forall|a: (i64, i64)| #[trigger] same(a, a)
    &&& forall|a: (i64, i64), b: (i64, i64)| #[trigger] same(a, b) ==> same(b, a)
    &&& forall|a: (i64, i64), b: (i64, i64), c: (i64, i64)|
        #[trigger] same(a, b) && #[trigger] same(b, c) ==> same(a, c)
    &&& forall|w: int|
        0 <= w < items.wires@.len() ==> #[trigger] joins_ends(items.wires@[w], same)
    &&& forall|w: int, l: int|
        0 <= w < items.wires@.len() && 0 <= l < items.labels@.len() ==> #[trigger] joins_place(
            items.wires@[w],
            items.labels@[l].x,
            items.labels@[l].y,
            same,
        )
    &&& forall|w: int, j: int|
        0 <= w < items.wires@.len() && 0 <= j < items.junctions@.len() ==> #[trigger] joins_place(
            items.wires@[w],
            items.junctions@[j].0,
            items.junctions@[j].1,
            same,
        )
}

/// The relation joins the ends of the wire.
pub open spec fn joins_ends(wire: Wire, same: spec_fn((i64, i64), (i64, i64)) -> bool) -> bool {
    same(micro(wire.x1 as int, wire.y1 as int), micro(wire.x2 as int, wire.y2 as int))
}

/// The relation joins the place to the wire where it lies on it.
pub open spec fn joins_place(
    wire: Wire,
    x: i64,
    y: i64,
    same: spec_fn((i64, i64), (i64, i64)) -> bool,
) -> bool {
    lies_on(wire, x as int, y as int, 10_000) ==> same(
        micro(x as int, y as int),
        micro(wire.x1 as int, wire.y1 as int),
    )
}

spec fn links_of(items: SheetItems) -> Set<((i64, i64), (i64, i64))> {
    sheet_links(
        items.wires@,
        label_places(items.labels@),
        items.junctions@,
        COINCIDENT_TOLERANCE as int,
    )
}

/// Wires join their ends, and the labels and junctions on them.
pub proof fn law_wires_join_what_is_on_them(items: SheetItems)
    ensures
        joins_the_sheet(items, |a: (i64, i64), b: (i64, i64)| same_net(items, a, b)),
{
    let links = links_of(items);
    let same = |a: (i64, i64), b: (i64, i64)| same_net(items, a, b);
    assert forall|a: (i64, i64)| #[trigger] same(a, a) by {
        lemma_reach_self(links, a);
    }
    assert forall|a: (i64, i64), b: (i64, i64)| #[trigger] same(a, b) implies same(b, a) by {
        lemma_reach_back(links, a, b);
    }
    assert forall|a: (i64, i64), b: (i64, i64), c: (i64, i64)|
        #[trigger] same(a, b) && #[trigger] same(b, c) implies same(a, c) by {
        lemma_reach_on(links, a, b, c);
    }
    assert forall|w: int| 0 <= w < items.wires@.len() implies #[trigger] joins_ends(
        items.wires@[w],
        same,
    ) by {
        let wire = items.wires@[w];
        assert(links.contains((first_node(wire), second_node(wire))));
        lemma_reach_link(links, first_node(wire), second_node(wire));
    }
    assert forall|w: int, l: int|
        0 <= w < items.wires@.len() && 0 <= l < items.labels@.len() implies #[trigger] joins_place(
        items.wires@[w],
        items.labels@[l].x,
        items.labels@[l].y,
        same,
    ) by {
        let wire = items.wires@[w];
        let places = label_places(items.labels@);
        law_places_on_a_wire_lie_on_it(
            wire,
            places[l].0 as int,
            places[l].1 as int,
            COINCIDENT_TOLERANCE as int,
        );
        if lies_on(wire, places[l].0 as int, places[l].1 as int, 10_000) {
            assert(on_wire(
                items.wires@[w],
                places[l].0 as int,
                places[l].1 as int,
                COINCIDENT_TOLERANCE as int,
            ));
            assert(links.contains((node_at(places[l]), first_node(wire))));
            lemma_reach_link(links, node_at(places[l]), first_node(wire));
        }
    }
    assert forall|w: int, j: int|
        0 <= w < items.wires@.len() && 0 <= j < items.junctions@.len() implies
        #[trigger] joins_place(
        items.wires@[w],
        items.junctions@[j].0,
        items.junctions@[j].1,
        same,
    ) by {
        let wire = items.wires@[w];
        let place = items.junctions@[j];
        law_places_on_a_wire_lie_on_it(
            wire,
            place.0 as int,
            place.1 as int,
            COINCIDENT_TOLERANCE as int,
        );
        if lies_on(wire, place.0 as int, place.1 as int, 10_000) {
            assert(on_wire(
                items.wires@[w],
                items.junctions@[j].0 as int,
                items.junctions@[j].1 as int,
                COINCIDENT_TOLERANCE as int,
            ));
            assert(links.contains((node_at(place), first_node(wire))));
            lemma_reach_link(links, node_at(place), first_node(wire));
        }
    }
}

/// Nothing else joins two nodes: what is on one net is joined by every relation
/// that joins the sheet.
pub proof fn law_nothing_else_joins_nets(
    items: SheetItems,
    same: spec_fn((i64, i64), (i64, i64)) -> bool,
    a: (i64, i64),
    b: (i64, i64),
)
    requires
        joins_the_sheet(items, same),
        same_net(items, a, b),
    ensures
        same(a, b),
{
    let links = links_of(items);
    let path = choose|path: Seq<(i64, i64)>| #[trigger]
        is_path(links, path) && path[0] == a && path.last() == b;
    lemma_path_joined(items, same, path);
}

proof fn lemma_link_joined(
    items: SheetItems,
    same: spec_fn((i64, i64), (i64, i64)) -> bool,
    a: (i64, i64),
    b: (i64, i64),
)
    requires
        joins_the_sheet(items, same),
        links_of(items).contains((a, b)),
    ensures
        same(a, b),
{
    let places = label_places(items.labels@);
    let tol = COINCIDENT_TOLERANCE as int;
    let link = (a, b);
    if is_wire_link(items.wires@, items.wires@.len() as int, link) {
        let w = choose|w: int|
            0 <= w < items.wires@.len() && link == (
                first_node(#[trigger] items.wires@[w]),
                second_node(items.wires@[w]),
            );
        assert(joins_ends(items.wires@[w], same));
    } else if is_attachment(places, items.wires@, tol, places.len() as int, link) {
        let (l, w) = choose|l: int, w: int|
            0 <= l < places.len() && 0 <= w < items.wires@.len() && on_wire(
                #[trigger] items.wires@[w],
                (#[trigger] places[l]).0 as int,
                places[l].1 as int,
                tol,
            ) && link == (node_at(places[l]), first_node(items.wires@[w]));
        law_places_on_a_wire_lie_on_it(
            items.wires@[w],
            places[l].0 as int,
            places[l].1 as int,
            tol,
        );
        assert(joins_place(items.wires@[w], items.labels@[l].x, items.labels@[l].y, same));
    } else {
        let (j, w) = choose|j: int, w: int|
            0 <= j < items.junctions@.len() && 0 <= w < items.wires@.len() && on_wire(
                #[trigger] items.wires@[w],
                (#[trigger] items.junctions@[j]).0 as int,
                items.junctions@[j].1 as int,
                tol,
            ) && link == (node_at(items.junctions@[j]), first_node(items.wires@[w]));
        law_places_on_a_wire_lie_on_it(
            items.wires@[w],
            items.junctions@[j].0 as int,
            items.junctions@[j].1 as int,
            tol,
        );
        assert(joins_place(
            items.wires@[w],
            items.junctions@[j].0,
            items.junctions@[j].1,
            same,
        ));
    }
}

proof fn lemma_path_joined(
    items: SheetItems,
    same: spec_fn((i64, i64), (i64, i64)) -> bool,
    path: Seq<(i64, i64)>,
)
    requires
        joins_the_sheet(items, same),
        is_path(links_of(items), path),
    ensures
        same(path[0], path.last()),
    decreases path.len(),
{
    let links = links_of(items);
    if path.len() > 1 {
        let rest = path.drop_last();
        assert forall|i: int| 0 <= i < rest.len() - 1 implies linked(
            links,
            #[trigger] rest[i],
            rest[i + 1],
        ) by {
            assert(linked(links, path[i], path[i + 1]));
        }
        lemma_path_joined(items, same, rest);
        let (a, b) = (path[path.len() - 2], path[path.len() - 1]);
        assert(linked(links, path[path.len() - 2], path[path.len() - 2 + 1]));
        if links.contains((a, b)) {
            lemma_link_joined(items, same, a, b);
        } else {
            lemma_link_joined(items, same, b, a);
            assert(same(b, a));
        }
        assert(same(path[0], a) && same(a, b));
    } else {
        assert(same(path[0], path[0]));
    }
}

/// Label `l` names its node: no later label stands on the same node.
pub open spec fn names_its_node(labels: Seq<Label>, l: int) -> bool {
    forall|m: int|
        l < m < labels.len() ==> micro((#[trigger] labels[m]).x as int, labels[m].y as int)
            != micro(labels[l].x as int, labels[l].y as int)
}

/// A label of this name names a node on the net of this one.
pub open spec fn has_name(items: SheetItems, net: Seq<char>, k: (i64, i64)) -> bool {
    exists|l: int|
        0 <= l < items.labels@.len() && (#[trigger] items.labels@[l]).net@ == net
            && names_its_node(items.labels@, l) && same_net(
            items,
            micro(items.labels@[l].x as int, items.labels@[l].y as int),
            k,
        )
}

proof fn lemma_label_name(labels: Seq<Label>, k: (i64, i64))
    ensures
        label_name(labels, k) matches Some(net) ==> exists|l: int|
            0 <= l < labels.len() && (#[trigger] labels[l]).net@ == net && names_its_node(labels, l)
                && micro(labels[l].x as int, labels[l].y as int) == k,
        forall|l: int|
            0 <= l < labels.len() && micro((#[trigger] labels[l]).x as int, labels[l].y as int)
                == k && names_its_node(labels, l) ==> label_name(labels, k) == Some(labels[l].net@),
    decreases labels.len(),
{
    if labels.len() > 0 {
        let rest = labels.drop_last();
        let last = labels.len() - 1;
        lemma_label_name(rest, k);
        assert(labels[last] == labels.last());
        if micro(labels.last().x as int, labels.last().y as int) == k {
            assert(names_its_node(labels, last));
        } else {
            if label_name(rest, k) is Some {
                let l = choose|l: int|
                    0 <= l < rest.len() && (#[trigger] rest[l]).net@ == label_name(rest, k)->0
                        && names_its_node(rest, l) && micro(rest[l].x as int, rest[l].y as int)
                        == k;
                assert(labels[l] == rest[l]);
                assert forall|m: int| l < m < labels.len() implies micro(
                    (#[trigger] labels[m]).x as int,
                    labels[m].y as int,
                ) != micro(labels[l].x as int, labels[l].y as int) by {
                    if m < last {
                        assert(rest[m] == labels[m]);
                    }
                }
                assert(names_its_node(labels, l));
            }
            assert forall|l: int|
                0 <= l < labels.len() && micro(
                    (#[trigger] labels[l]).x as int,
                    labels[l].y as int,
                ) == k && names_its_node(labels, l) implies label_name(labels, k) == Some(
                labels[l].net@,
            ) by {
                assert(rest[l] == labels[l]);
                assert forall|m: int| l < m < rest.len() implies micro(
                    (#[trigger] rest[m]).x as int,
                    rest[m].y as int,
                ) != micro(rest[l].x as int, rest[l].y as int) by {
                    assert(labels[m] == rest[m]);
                }
                assert(names_its_node(rest, l));
            }
        }
    }
}

/// A net has exactly the names that labels of any sort give to its nodes. Of
/// several labels on one node the last counts.
pub proof fn law_a_net_has_the_names_of_its_labels(
    items: SheetItems,
    net: Seq<char>,
    k: (i64, i64),
)
    ensures
        on_net(items, net, k) == has_name(items, net, k),
{
    if on_net(items, net, k) {
        let x = choose|x: (i64, i64)| #[trigger]
            label_name(items.labels@, x) == Some(net) && same_net(items, x, k);
        lemma_label_name(items.labels@, x);
    }
    if has_name(items, net, k) {
        let l = choose|l: int|
            0 <= l < items.labels@.len() && (#[trigger] items.labels@[l]).net@ == net
                && names_its_node(items.labels@, l) && same_net(
                items,
                micro(items.labels@[l].x as int, items.labels@[l].y as int),
                k,
            );
        let x = micro(items.labels@[l].x as int, items.labels@[l].y as int);
        lemma_label_name(items.labels@, x);
        assert(label_name(items.labels@, x) == Some(net));
    }
}

/// The name that is told of a place is one that its net has, and there is one
/// wherever its net has any.
pub proof fn law_a_net_with_a_name_is_named(items: SheetItems, k: (i64, i64), name: Option<String>)
    requires
        names_net(items, k, name),
    ensures
        match name {
            Some(net) => has_name(items, net@, k),
            None => forall|net: Seq<char>| !#[trigger] has_name(items, net, k),
        },
{
    match name {
        Some(net) => {
            law_a_net_has_the_names_of_its_labels(items, net@, k);
        },
        None => {
            assert forall|net: Seq<char>| !#[trigger] has_name(items, net, k) by {
                law_a_net_has_the_names_of_its_labels(items, net, k);
                assert(!on_net(items, net, k));
            }
        },
    }
}

/// The nodes of a name are exactly those whose nets have it, each once.
pub proof fn law_the_nodes_of_a_name_are_on_its_nets(
    items: SheetItems,
    net: Seq<char>,
    list: Seq<(i64, i64)>,
)
    requires
        lists_net(items, net, list),
    ensures
        list.no_duplicates(),
        forall|k: (i64, i64)| #[trigger] list.contains(k) <==> has_name(items, net, k),
{
    assert forall|k: (i64, i64)| #[trigger] list.contains(k) <==> has_name(items, net, k) by {
        law_a_net_has_the_names_of_its_labels(items, net, k);
    }
}

/// A wire is on a net by one end exactly if it is by the other.
pub proof fn law_a_wire_is_on_one_net(items: SheetItems, net: Seq<char>, w: int)
    requires
        0 <= w < items.wires@.len(),
    ensures
        wire_on_net(items, net, items.wires@[w]) == has_name(
            items,
            net,
            micro(items.wires@[w].x1 as int, items.wires@[w].y1 as int),
        ),
        wire_on_net(items, net, items.wires@[w]) == has_name(
            items,
            net,
            micro(items.wires@[w].x2 as int, items.wires@[w].y2 as int),
        ),
{
    law_wires_join_what_is_on_them(items);
    let same = |a: (i64, i64), b: (i64, i64)| same_net(items, a, b);
    assert(joins_ends(items.wires@[w], same));
    let (a, b) = (first_node(items.wires@[w]), second_node(items.wires@[w]));
    assert(same(a, b) && same(b, a));
    law_a_net_has_the_names_of_its_labels(items, net, a);
    law_a_net_has_the_names_of_its_labels(items, net, b);
    if has_name(items, net, a) {
        lemma_name_carries(items, net, a, b);
    }
    if has_name(items, net, b) {
        lemma_name_carries(items, net, b, a);
    }
}

proof fn lemma_name_carries(items: SheetItems, net: Seq<char>, a: (i64, i64), b: (i64, i64))
    requires
        same_net(items, a, b),
        has_name(items, net, a),
    ensures
        has_name(items, net, b),
{
    let l = choose|l: int|
        0 <= l < items.labels@.len() && (#[trigger] items.labels@[l]).net@ == net
            && names_its_node(items.labels@, l) && same_net(
            items,
            micro(items.labels@[l].x as int, items.labels@[l].y as int),
            a,
        );
    lemma_reach_on(
        links_of(items),
        micro(items.labels@[l].x as int, items.labels@[l].y as int),
        a,
        b,
    );
}

/// The net of a node has no name.
pub open spec fn is_nameless(items: SheetItems, k: (i64, i64)) -> bool {
    forall|net: Seq<char>| !#[trigger] has_name(items, net, k)
}

proof fn lemma_nameless(items: SheetItems, k: (i64, i64))
    requires
        nameless(items, k),
    ensures
        is_nameless(items, k),
{
    assert forall|net: Seq<char>| !#[trigger] has_name(items, net, k) by {
        law_a_net_has_the_names_of_its_labels(items, net, k);
        assert(!on_net(items, net, k));
    }
}

/// A wire is at a place that one of its ends is close to or that it passes
/// through, and a label at one that it is close to. The name that is told of a
/// place is one of the net of that place, of a wire or of a label there; there
/// is none only where none of these nets has a name.
pub proof fn law_a_trace_names_what_is_here(
    items: SheetItems,
    x: int,
    y: int,
    tol: int,
    name: Option<String>,
    w: int,
    l: int,
)
    requires
        names_place(items, x, y, tol, name),
        0 <= w < items.wires@.len(),
        0 <= l < items.labels@.len(),
    ensures
        ({
            let wire = items.wires@[w];
            let label = items.labels@[l];
            &&& wire_here(wire, x, y, tol) == (close(x, y, wire.x1 as int, wire.y1 as int, tol)
                || close(x, y, wire.x2 as int, wire.y2 as int, tol) || lies_on(wire, x, y, tol))
            &&& label_here(label, x, y, tol) == close(x, y, label.x as int, label.y as int, tol)
            &&& name is None ==> is_nameless(items, micro(x, y))
            &&& name is None && wire_here(wire, x, y, tol) ==> is_nameless(
                items,
                micro(wire.x1 as int, wire.y1 as int),
            )
            &&& name is None && label_here(label, x, y, tol) ==> is_nameless(
                items,
                micro(label.x as int, label.y as int),
            )
        }),
        name matches Some(net) ==> has_name(items, net@, micro(x, y)) || (exists|v: int|
            0 <= v < items.wires@.len() && wire_here(#[trigger] items.wires@[v], x, y, tol)
                && has_name(
                items,
                net@,
                micro(items.wires@[v].x1 as int, items.wires@[v].y1 as int),
            )) || (exists|m: int|
            0 <= m < items.labels@.len() && label_here(#[trigger] items.labels@[m], x, y, tol)
                && has_name(
                items,
                net@,
                micro(items.labels@[m].x as int, items.labels@[m].y as int),
            )),
{
    let wire = items.wires@[w];
    let label = items.labels@[l];
    law_places_on_a_wire_lie_on_it(wire, x, y, tol);
    let own = micro(x, y);
    let far = micro(wire.x1 as int, wire.y1 as int);
    let at = micro(label.x as int, label.y as int);
    assert(node_here(items, x, y, tol, own));
    assert(wire_here(items.wires@[w], x, y, tol) ==> node_here(items, x, y, tol, far));
    assert(label_here(items.labels@[l], x, y, tol) ==> node_here(items, x, y, tol, at));
    if name is None {
        lemma_nameless(items, own);
        if wire_here(wire, x, y, tol) {
            lemma_nameless(items, far);
        }
        if label_here(label, x, y, tol) {
            lemma_nameless(items, at);
        }
    } else {
        let net = name->0@;
        let k = choose|k: (i64, i64)| #[trigger]
            node_here(items, x, y, tol, k) && on_net(items, net, k);
        law_a_net_has_the_names_of_its_labels(items, net, k);
    }
}

/// A pin is found by its reference and its number, and it is not found only if
/// no component of the reference has such a pin.
pub proof fn law_a_pin_that_is_there_is_found(
    components: Seq<PlacedComponent>,
    reference: Seq<char>,
    number: Seq<char>,
    c: int,
    p: int,
)
    requires
        0 <= c < components.len(),
        0 <= p < components[c].pins@.len(),
    ensures
        is_pin(components, reference, number, c, p) == (components[c].reference@ == reference
            && components[c].pins@[p].pin.number@ == number),
        components[c].reference@ == reference && components[c].pins@[p].pin.number@ == number
            ==> earlier_pin(components, reference, number, components.len() as int, 0),
{
    if components[c].reference@ == reference && components[c].pins@[p].pin.number@ == number {
        assert(is_pin(components, reference, number, c, p));
    }
}

/// What is told of a pin is its number, its name, its place and its net's name.
pub proof fn law_a_pin_is_told_as_it_is(items: SheetItems, pin: ComponentPin, told: PinNet)
    requires
        answers(items, pin, told),
    ensures
        told.number@ == pin.pin.number@,
        told.name@ == pin.pin.name@,
        told.x == pin.x && told.y == pin.y,
        match told.net {
            Some(net) => has_name(items, net@, micro(pin.x as int, pin.y as int)),
            None => forall|net: Seq<char>| !#[trigger] has_name(
                items,
                net,
                micro(pin.x as int, pin.y as int),
            ),
        },
{
    law_a_net_with_a_name_is_named(items, micro(pin.x as int, pin.y as int), told.net);
}

/// The pins of a reference are those of all of its components, in order.
pub proof fn law_a_reference_has_the_pins_of_its_components(
    components: Seq<PlacedComponent>,
    reference: Seq<char>,
)
    ensures
        pins_of(components, reference, components.len()) == components.filter(
            |c: PlacedComponent| c.reference@ == reference,
        ).map_values(|c: PlacedComponent| c.pins@).flatten_alt(),
{
    lemma_pins_flat(components, reference, components.len());
    assert(components.take(components.len() as int) =~= components);
}

proof fn lemma_pins_flat(components: Seq<PlacedComponent>, reference: Seq<char>, n: nat)
    requires
        n <= components.len(),
    ensures
        pins_of(components, reference, n) == components.take(n as int).filter(
            |c: PlacedComponent| c.reference@ == reference,
        ).map_values(|c: PlacedComponent| c.pins@).flatten_alt(),
    decreases n,
{
    reveal(Seq::filter);
    let owns = |c: PlacedComponent| c.reference@ == reference;
    let pins = |c: PlacedComponent| c.pins@;
    let head = components.take(n as int);
    if n > 0 {
        lemma_pins_flat(components, reference, (n - 1) as nat);
        let before = components.take(n - 1);
        assert(head.drop_last() =~= before);
        assert(head.last() == components[n - 1]);
        if owns(head.last()) {
            let all = before.filter(owns).push(head.last()).map_values(pins);
            assert(all.drop_last() =~= before.filter(owns).map_values(pins));
            assert(all.last() == head.last().pins@);
        }
    } else {
        assert(head.filter(owns).map_values(pins) =~= Seq::empty());
    }
}

/// A node is connected to a component by wires from one of its pins, or by a
/// name that its net shares with the net of one of its pins; a name is carried
/// where the net of a pin has it.
pub proof fn law_connected_by_wire_or_by_name(
    items: SheetItems,
    pins: Seq<ComponentPin>,
    k: (i64, i64),
    p: int,
    net: Seq<char>,
)
    requires
        0 <= p < pins.len(),
    ensures
        ({
            let at = micro(pins[p].x as int, pins[p].y as int);
            &&& same_net(items, at, k) ==> linked_to(items, pins, k)
            &&& has_name(items, net, at) && has_name(items, net, k) ==> linked_to(items, pins, k)
            &&& has_name(items, net, at) ==> carries(items, pins, net)
        }),
        linked_to(items, pins, k) ==> exists|q: int|
            0 <= q < pins.len() && (same_net(
                items,
                micro((#[trigger] pins[q]).x as int, pins[q].y as int),
                k,
            ) || exists|name: Seq<char>| #[trigger]
                has_name(items, name, k) && has_name(
                    items,
                    name,
                    micro(pins[q].x as int, pins[q].y as int),
                )),
        carries(items, pins, net) ==> exists|q: int|
            0 <= q < pins.len() && has_name(
                items,
                net,
                micro((#[trigger] pins[q]).x as int, pins[q].y as int),
            ),
{
    let at = pin_node(pins[p]);
    law_a_net_has_the_names_of_its_labels(items, net, at);
    law_a_net_has_the_names_of_its_labels(items, net, k);
    if has_name(items, net, at) {
        assert(on_net(items, net, pin_node(pins[p])));
        assert(carries(items, pins, net));
    }
    if carries(items, pins, net) {
        let q = choose|q: int|
            0 <= q < pins.len() && on_net(items, net, pin_node(#[trigger] pins[q]));
        law_a_net_has_the_names_of_its_labels(items, net, pin_node(pins[q]));
    }
    if linked_to(items, pins, k) && !joined(items, pins, k) {
        let name = choose|name: Seq<char>| #[trigger]
            carries(items, pins, name) && on_net(items, name, k);
        let q = choose|q: int|
            0 <= q < pins.len() && on_net(items, name, pin_node(#[trigger] pins[q]));
        law_a_net_has_the_names_of_its_labels(items, name, pin_node(pins[q]));
        law_a_net_has_the_names_of_its_labels(items, name, k);
        assert(has_name(items, name, k));
        assert(pin_node(pins[q]) == micro(pins[q].x as int, pins[q].y as int));
    } else if joined(items, pins, k) {
        let q = choose|q: int|
            0 <= q < pins.len() && same_net(items, pin_node(#[trigger] pins[q]), k);
        assert(pin_node(pins[q]) == micro(pins[q].x as int, pins[q].y as int));
    }
}

/// The list is that of all the names on the net of a label.
pub open spec fn lists_names(items: SheetItems, l: int, names: Seq<Seq<char>>) -> bool {
    &&& strictly_ordered(names)
    &&& forall|net: Seq<char>| #[trigger]
        names.contains(net) <==> exists|m: int|
            0 <= m < items.labels@.len() && (#[trigger] items.labels@[m]).net@ == net && same_net(
                items,
                micro(items.labels@[m].x as int, items.labels@[m].y as int),
                micro(items.labels@[l].x as int, items.labels@[l].y as int),
            )
}

/// Two labels of different names on one net are reported as a short, with all
/// the names of that net in order, and only such nets are.
pub proof fn law_shorts_are_nets_of_two_names(items: SheetItems, l: int, m: int)
    requires
        0 <= l < items.labels@.len(),
        0 <= m < items.labels@.len(),
    ensures
        items.labels@[l].net@ != items.labels@[m].net@ && same_net(
            items,
            micro(items.labels@[m].x as int, items.labels@[m].y as int),
            micro(items.labels@[l].x as int, items.labels@[l].y as int),
        ) ==> exists|names: Seq<Seq<char>>| #[trigger]
            shorts(items, items.labels@.len()).contains(names) && lists_names(items, l, names),
        forall|names: Seq<Seq<char>>| #[trigger]
            shorts(items, items.labels@.len()).contains(names) ==> names.len() > 1 && exists|i: int|
                0 <= i < items.labels@.len() && #[trigger] lists_names(items, i, names),
{
    let n = items.labels@.len();
    let all = shorts(items, n);
    assert forall|names: Seq<Seq<char>>| #[trigger] all.contains(names) implies names.len() > 1
        && exists|i: int|
        0 <= i < items.labels@.len() && #[trigger] lists_names(items, i, names) by {
        lemma_short_source(items, n, names);
    }
    let (a, b) = (label_node(items.labels@[m]), label_node(items.labels@[l]));
    if items.labels@[l].net@ != items.labels@[m].net@ && same_net(items, a, b) {
        let i = lemma_first_label(items, l);
        let first = label_node(items.labels@[i]);
        let names = ordered_list_of(names_on(items, first));
        lemma_names_listed(items, i);
        let links = links_of(items);
        lemma_reach_back(links, first, b);
        lemma_reach_on(links, a, b, first);
        lemma_reach_self(links, first);
        assert(names.contains(items.labels@[l].net@)) by {
            assert(names_on(items, first).contains(items.labels@[l].net@));
        }
        assert(names.contains(items.labels@[m].net@)) by {
            assert(names_on(items, first).contains(items.labels@[m].net@));
        }
        let (p, q) = (
            names.index_of(items.labels@[l].net@),
            names.index_of(items.labels@[m].net@),
        );
        assert(p != q);
        assert(names.len() > 1);
        lemma_short_reported(items, n, i);
        lemma_same_names(items, i, l, names);
    }
}

proof fn lemma_names_listed(items: SheetItems, i: int)
    requires
        0 <= i < items.labels@.len(),
    ensures
        lists_names(items, i, ordered_list_of(names_on(items, label_node(items.labels@[i])))),
        forall|net: Seq<char>| #[trigger]
            ordered_list_of(names_on(items, label_node(items.labels@[i]))).contains(net)
                <==> names_on(items, label_node(items.labels@[i])).contains(net),
{
    let k = label_node(items.labels@[i]);
    let members = names_on(items, k);
    let some = every_named(items, k, items.labels@.len());
    lemma_every_named(items, k, items.labels@.len());
    crate::text::lemma_can_be_ordered(Seq::empty(), some, members);
    let names = ordered_list_of(members);
    assert forall|net: Seq<char>| #[trigger]
        names.contains(net) <==> exists|m: int|
            0 <= m < items.labels@.len() && (#[trigger] items.labels@[m]).net@ == net && same_net(
                items,
                micro(items.labels@[m].x as int, items.labels@[m].y as int),
                micro(items.labels@[i].x as int, items.labels@[i].y as int),
            ) by {
        if members.contains(net) {
            let j = choose|j: int|
                0 <= j < items.labels@.len() && (#[trigger] items.labels@[j]).net@ == net
                    && same_net(items, label_node(items.labels@[j]), k);
            assert(same_net(
                items,
                micro(items.labels@[j].x as int, items.labels@[j].y as int),
                micro(items.labels@[i].x as int, items.labels@[i].y as int),
            ));
        }
    }
}

spec fn every_named(items: SheetItems, k: (i64, i64), n: nat) -> Seq<Seq<char>>
    decreases n,
{
    if n == 0 {
        Seq::empty()
    } else if same_net(items, label_node(items.labels@[n - 1]), k) {
        every_named(items, k, (n - 1) as nat).push(items.labels@[n - 1].net@)
    } else {
        every_named(items, k, (n - 1) as nat)
    }
}

proof fn lemma_every_named(items: SheetItems, k: (i64, i64), n: nat)
    requires
        n <= items.labels@.len(),
    ensures
        forall|net: Seq<char>| #[trigger]
            every_named(items, k, n).contains(net) <==> exists|j: int|
                0 <= j < n && (#[trigger] items.labels@[j]).net@ == net && same_net(
                    items,
                    label_node(items.labels@[j]),
                    k,
                ),
    decreases n,
{
    if n > 0 {
        lemma_every_named(items, k, (n - 1) as nat);
        let rest = every_named(items, k, (n - 1) as nat);
        let list = every_named(items, k, n);
        assert forall|net: Seq<char>| #[trigger]
            list.contains(net) <==> exists|j: int|
                0 <= j < n && (#[trigger] items.labels@[j]).net@ == net && same_net(
                    items,
                    label_node(items.labels@[j]),
                    k,
                ) by {
            assert(rest.contains(net) <==> exists|j: int|
                0 <= j < n - 1 && (#[trigger] items.labels@[j]).net@ == net && same_net(
                    items,
                    label_node(items.labels@[j]),
                    k,
                ));
            if rest.contains(net) {
                assert(list[rest.index_of(net)] == net);
            }
            if list.contains(net) {
                let q = list.index_of(net);
                if q < rest.len() {
                    assert(rest[q] == net);
                } else {
                    assert(items.labels@[n - 1].net@ == net);
                }
            }
            if same_net(items, label_node(items.labels@[n - 1]), k) && items.labels@[n - 1].net@
                == net {
                assert(list[list.len() - 1] == net);
            }
        }
    }
}

proof fn lemma_first_label(items: SheetItems, l: int) -> (i: int)
    requires
        0 <= l < items.labels@.len(),
    ensures
        0 <= i <= l,
        first_on_net(items, i),
        same_net(items, label_node(items.labels@[i]), label_node(items.labels@[l])),
    decreases l,
{
    let links = links_of(items);
    if first_on_net(items, l) {
        lemma_reach_self(links, label_node(items.labels@[l]));
        l
    } else {
        let j = choose|j: int|
            0 <= j < l && same_net(
                items,
                label_node(#[trigger] items.labels@[j]),
                label_node(items.labels@[l]),
            );
        let i = lemma_first_label(items, j);
        lemma_reach_on(
            links,
            label_node(items.labels@[i]),
            label_node(items.labels@[j]),
            label_node(items.labels@[l]),
        );
        i
    }
}

proof fn lemma_short_reported(items: SheetItems, n: nat, i: int)
    requires
        n <= items.labels@.len(),
        0 <= i < n,
        first_on_net(items, i),
        ordered_list_of(names_on(items, label_node(items.labels@[i]))).len() > 1,
    ensures
        shorts(items, n).contains(ordered_list_of(names_on(items, label_node(items.labels@[i])))),
    decreases n,
{
    let names = ordered_list_of(names_on(items, label_node(items.labels@[i])));
    let list = shorts(items, n);
    if i == n - 1 {
        assert(list[list.len() - 1] == names);
    } else {
        lemma_short_reported(items, (n - 1) as nat, i);
        let rest = shorts(items, (n - 1) as nat);
        assert(list[rest.index_of(names)] == names);
    }
}

proof fn lemma_short_source(items: SheetItems, n: nat, names: Seq<Seq<char>>)
    requires
        n <= items.labels@.len(),
        shorts(items, n).contains(names),
    ensures
        names.len() > 1,
        exists|i: int| 0 <= i < items.labels@.len() && #[trigger] lists_names(items, i, names),
    decreases n,
{
    let list = shorts(items, n);
    let rest = shorts(items, (n - 1) as nat);
    let q = list.index_of(names);
    if q < rest.len() {
        assert(rest[q] == names);
        lemma_short_source(items, (n - 1) as nat, names);
    } else {
        lemma_names_listed(items, n - 1);
        assert(lists_names(items, n - 1, names));
    }
}

proof fn lemma_same_names(items: SheetItems, i: int, l: int, names: Seq<Seq<char>>)
    requires
        0 <= i < items.labels@.len(),
        0 <= l < items.labels@.len(),
        lists_names(items, i, names),
        same_net(items, label_node(items.labels@[i]), label_node(items.labels@[l])),
    ensures
        lists_names(items, l, names),
{
    let links = links_of(items);
    let (a, b) = (label_node(items.labels@[i]), label_node(items.labels@[l]));
    lemma_reach_back(links, a, b);
    assert forall|net: Seq<char>| #[trigger]
        names.contains(net) <==> exists|m: int|
            0 <= m < items.labels@.len() && (#[trigger] items.labels@[m]).net@ == net && same_net(
                items,
                micro(items.labels@[m].x as int, items.labels@[m].y as int),
                micro(items.labels@[l].x as int, items.labels@[l].y as int),
            ) by {
        if names.contains(net) {
            let m = choose|m: int|
                0 <= m < items.labels@.len() && (#[trigger] items.labels@[m]).net@ == net
                    && same_net(
                    items,
                    micro(items.labels@[m].x as int, items.labels@[m].y as int),
                    micro(items.labels@[i].x as int, items.labels@[i].y as int),
                );
            lemma_reach_on(links, label_node(items.labels@[m]), a, b);
        }
        if exists|m: int|
            0 <= m < items.labels@.len() && (#[trigger] items.labels@[m]).net@ == net && same_net(
                items,
                micro(items.labels@[m].x as int, items.labels@[m].y as int),
                micro(items.labels@[l].x as int, items.labels@[l].y as int),
            ) {
            let m = choose|m: int|
                0 <= m < items.labels@.len() && (#[trigger] items.labels@[m]).net@ == net
                    && same_net(
                    items,
                    micro(items.labels@[m].x as int, items.labels@[m].y as int),
                    micro(items.labels@[l].x as int, items.labels@[l].y as int),
                );
            lemma_reach_on(links, label_node(items.labels@[m]), b, a);
        }
    }
}

} // verus!
