//! Everything that is connected to a component, found by tracing from each of
//! its pins.

use crate::connectivity::{
    first_node, label_name, label_places, second_node, sheet_links, SheetItems,
};
use crate::geometry::{micro, pt_key, Label, COINCIDENT_TOLERANCE};
use crate::links::{is_path, lemma_reach_self, reachable};
use crate::lists::{ints, lemma_same_positions, positions_where};
use crate::net_graph::NetGraph;
use crate::net_queries::{
    build_graph, components_at_points, components_where, contains_point, graph_of,
    lemma_graph_kept, lists_components, names_every_pin, on_net, pin_node, pins_of, tells_of_pins,
    tells_of_wires, wires_at_points, ComponentOnNet,
};
use crate::sheet_reports::same_net;
use crate::single_pin::{ComponentPin, PlacedComponent};
use crate::text::{contains_text, ordered_list_of, text_eq, texts};
use crate::text_map::{ordered_keys, TextMap};
use vstd::prelude::*;
use vstd::string::*;

verus! {

/// The node of a label.
pub open spec fn node_of_label(label: Label) -> (i64, i64) {
    micro(label.x as int, label.y as int)
}

/// Wires join the node to one of these pins.
pub open spec fn joined(items: SheetItems, pins: Seq<ComponentPin>, k: (i64, i64)) -> bool {
    exists|p: int| 0 <= p < pins.len() && same_net(items, pin_node(#[trigger] pins[p]), k)
}

/// One of these pins is on a net of this name.
pub open spec fn carries(items: SheetItems, pins: Seq<ComponentPin>, net: Seq<char>) -> bool {
    exists|p: int| 0 <= p < pins.len() && on_net(items, net, pin_node(#[trigger] pins[p]))
}

/// The node is connected to one of these pins: by wires, or by a name that
/// labels give to the nets of both.
pub open spec fn linked_to(items: SheetItems, pins: Seq<ComponentPin>, k: (i64, i64)) -> bool {
    joined(items, pins, k) || exists|net: Seq<char>| #[trigger]
        carries(items, pins, net) && on_net(items, net, k)
}

/// What is connected to a component.
#[derive(PartialEq, Eq, Debug)]
pub struct ConnectedItems {
    pub nets: Vec<String>,
    pub wires: Vec<usize>,
    pub labels: Vec<usize>,
    pub components: Vec<ComponentOnNet>,
}

fn name_at(labels: &Vec<Label>, k: (i64, i64)) -> (res: Option<String>)
    ensures
        match res {
            Some(net) => label_name(labels@, k) == Some(net@),
            None => label_name(labels@, k) is None,
        },
{
    let mut n: usize = labels.len();
    assert(labels@.take(n as int) =~= labels@);
    while n > 0
        invariant
            n <= labels@.len(),
            label_name(labels@, k) == label_name(labels@.take(n as int), k),
        decreases n,
    {
        let label = &labels[n - 1];
        let own = pt_key(label.x, label.y);
        proof {
            let list = labels@.take(n as int);
            assert(list.last() == *label);
            assert(list.drop_last() =~= labels@.take(n - 1));
        }
        if own.0 == k.0 && own.1 == k.1 {
            return Some(label.net.clone());
        }
        n -= 1;
    }
    None
}

/// A label at a node names it.
proof fn lemma_label_names(labels: Seq<Label>, j: int)
    requires
        0 <= j < labels.len(),
    ensures
        label_name(labels, node_of_label(labels[j])) is Some,
    decreases labels.len(),
{
    if j < labels.len() - 1 {
        assert(labels.drop_last()[j] == labels[j]);
        lemma_label_names(labels.drop_last(), j);
    }
}

/// A node with a name has a label.
proof fn lemma_name_has_label(labels: Seq<Label>, k: (i64, i64)) -> (j: int)
    requires
        label_name(labels, k) is Some,
    ensures
        0 <= j < labels.len(),
        node_of_label(labels[j]) == k,
    decreases labels.len(),
{
    if node_of_label(labels.last()) == k {
        labels.len() - 1
    } else {
        let j = lemma_name_has_label(labels.drop_last(), k);
        assert(labels.drop_last()[j] == labels[j]);
        j
    }
}

/// The roots are those of the nodes of these pins.
spec fn roots_of_pins(
    graph: NetGraph,
    pins: Seq<ComponentPin>,
    roots: Seq<(i64, i64)>,
) -> bool {
    forall|r: (i64, i64)| #[trigger]
        roots.contains(r) <==> exists|p: int|
            0 <= p < pins.len() && graph.root(pin_node(#[trigger] pins[p])) == r
}

fn pin_roots(
    items: &SheetItems,
    graph: &mut NetGraph,
    components: &Vec<PlacedComponent>,
    reference: &str,
) -> (res: Vec<(i64, i64)>)
    requires
        graph_of(*items, *old(graph)),
    ensures
        graph_of(*items, *final(graph)),
        final(graph).same_nets(*old(graph)),
        roots_of_pins(
            *old(graph),
            pins_of(components@, reference@, components@.len()),
            res@,
        ),
{
    let ghost start = *graph;
    let mut res: Vec<(i64, i64)> = Vec::new();
    let mut c: usize = 0;
    while c < components.len()
        invariant
            c <= components@.len(),
            start == *old(graph),
            graph_of(*items, *graph),
            graph.same_nets(start),
            roots_of_pins(start, pins_of(components@, reference@, c as nat), res@),
        decreases components@.len() - c,
    {
        let component = &components[c];
        let ghost done = pins_of(components@, reference@, c as nat);
        if text_eq(component.reference.as_str(), reference) {
            let mut p: usize = 0;
            assert(done + component.pins@.take(0) =~= done);
            while p < component.pins.len()
                invariant
                    p <= component.pins@.len(),
                    graph_of(*items, *graph),
                    graph.same_nets(start),
                    roots_of_pins(start, done + component.pins@.take(p as int), res@),
                decreases component.pins@.len() - p,
            {
                let pin = &component.pins[p];
                let ghost before = *graph;
                let ghost roots = res@;
                let root = graph.find(pt_key(pin.x, pin.y));
                res.push(root);
                proof {
                    lemma_graph_kept(*items, before, *graph);
                    assert(before.root(pin_node(*pin)) == start.root(pin_node(*pin)));
                    crate::net_graph::lemma_same_nets_chain(start, before, *graph);
                    let (a, b) = (
                        done + component.pins@.take(p as int),
                        done + component.pins@.take(p + 1),
                    );
                    assert(b =~= a.push(*pin));
                    assert forall|r: (i64, i64)| #[trigger]
                        res@.contains(r) <==> exists|q: int|
                            0 <= q < b.len() && start.root(pin_node(#[trigger] b[q])) == r by {
                        if roots.contains(r) {
                            assert(res@[roots.index_of(r)] == r);
                            let q = choose|q: int|
                                0 <= q < a.len() && start.root(pin_node(#[trigger] a[q])) == r;
                            assert(b[q] == a[q]);
                        }
                        if r == root {
                            assert(res@[roots.len() as int] == r);
                            assert(b[a.len() as int] == *pin);
                        }
                        if res@.contains(r) {
                            let i = res@.index_of(r);
                            if i < roots.len() {
                                assert(roots[i] == r);
                            }
                        }
                        if exists|q: int|
                            0 <= q < b.len() && start.root(pin_node(#[trigger] b[q])) == r {
                            let q = choose|q: int|
                                0 <= q < b.len() && start.root(pin_node(#[trigger] b[q])) == r;
                            if q < a.len() {
                                assert(a[q] == b[q]);
                                assert(roots.contains(r));
                            }
                        }
                    }
                }
                p += 1;
            }
            assert(component.pins@.take(p as int) =~= component.pins@);
        }
        c += 1;
    }
    res
}

/// The roots tell which nodes wires join to these pins.
proof fn lemma_joined(
    items: SheetItems,
    graph: NetGraph,
    pins: Seq<ComponentPin>,
    roots: Seq<(i64, i64)>,
    k: (i64, i64),
)
    requires
        graph_of(items, graph),
        roots_of_pins(graph, pins, roots),
    ensures
        roots.contains(graph.root(k)) <==> joined(items, pins, k),
{
    if roots.contains(graph.root(k)) {
        let p = choose|p: int|
            0 <= p < pins.len() && graph.root(pin_node(#[trigger] pins[p])) == graph.root(k);
        assert(graph.connected(pin_node(pins[p]), k));
        assert(same_net(items, pin_node(pins[p]), k));
    }
    if joined(items, pins, k) {
        let p = choose|p: int|
            0 <= p < pins.len() && same_net(items, pin_node(#[trigger] pins[p]), k);
        assert(graph.connected(pin_node(pins[p]), k));
    }
}

/// The names that labels give to the nets of these pins.
fn carried_names(
    items: &SheetItems,
    graph: &mut NetGraph,
    roots: &Vec<(i64, i64)>,
    Ghost(pins): Ghost<Seq<ComponentPin>>,
) -> (res: TextMap<bool>)
    requires
        graph_of(*items, *old(graph)),
        roots_of_pins(*old(graph), pins, roots@),
    ensures
        graph_of(*items, *final(graph)),
        final(graph).same_nets(*old(graph)),
        forall|net: Seq<char>| #[trigger]
            res@.contains_key(net) <==> carries(*items, pins, net),
{
    let ghost start = *graph;
    let labels = &items.labels;
    let mut names: TextMap<bool> = TextMap::new();
    let mut j: usize = 0;
    while j < labels.len()
        invariant
            j <= labels@.len(),
            labels@ == items.labels@,
            start == *old(graph),
            graph_of(*items, start),
            roots_of_pins(start, pins, roots@),
            graph_of(*items, *graph),
            graph.same_nets(start),
            forall|net: Seq<char>| #[trigger]
                names@.contains_key(net) ==> carries(*items, pins, net),
            forall|m: int|
                0 <= m < j && joined(*items, pins, node_of_label(#[trigger] labels@[m]))
                    ==> names@.contains_key(
                    label_name(labels@, node_of_label(labels@[m]))->0,
                ),
        decreases labels@.len() - j,
    {
        let label = &labels[j];
        let k = pt_key(label.x, label.y);
        let ghost before = *graph;
        let ghost known = names@;
        let root = graph.find(k);
        proof {
            lemma_graph_kept(*items, before, *graph);
            crate::net_graph::lemma_same_nets_chain(start, before, *graph);
            assert(before.root(k) == start.root(k));
            lemma_joined(*items, start, pins, roots@, k);
            lemma_label_names(labels@, j as int);
        }
        if contains_point(roots, root) {
            if let Some(net) = name_at(labels, k) {
                let ghost text = net@;
                names.insert(net, true);
                proof {
                    let p = choose|p: int|
                        0 <= p < pins.len() && same_net(*items, pin_node(#[trigger] pins[p]), k);
                    assert(start.connected(pin_node(pins[p]), k));
                    assert(start.connected(k, pin_node(pins[p])));
                    assert(label_name(items.labels@, k) == Some(text));
                    assert(same_net(*items, k, pin_node(pins[p])));
                    assert(on_net(*items, text, pin_node(pins[p])));
                    assert(carries(*items, pins, text));
                    assert forall|m: int|
                        0 <= m < j + 1 && joined(*items, pins, node_of_label(#[trigger] labels@[m]))
                        implies names@.contains_key(
                        label_name(labels@, node_of_label(labels@[m]))->0,
                    ) by {
                        if m < j {
                            assert(known.contains_key(
                                label_name(labels@, node_of_label(labels@[m]))->0,
                            ));
                        }
                    }
                }
            }
        }
        j += 1;
    }
    proof {
        assert forall|net: Seq<char>| carries(*items, pins, net) implies #[trigger]
            names@.contains_key(net) by {
            let p = choose|p: int|
                0 <= p < pins.len() && on_net(*items, net, pin_node(#[trigger] pins[p]));
            let x = choose|x: (i64, i64)| #[trigger]
                label_name(items.labels@, x) == Some(net) && same_net(
                    *items,
                    x,
                    pin_node(pins[p]),
                );
            let m = lemma_name_has_label(labels@, x);
            assert(start.connected(x, pin_node(pins[p])));
            assert(start.connected(pin_node(pins[p]), x));
            assert(same_net(*items, pin_node(pins[p]), x));
            assert(joined(*items, pins, node_of_label(labels@[m])));
        }
    }
    names
}

/// The roots tell which nodes are connected to these pins.
spec fn roots_tell_links(
    items: SheetItems,
    graph: NetGraph,
    pins: Seq<ComponentPin>,
    roots: Seq<(i64, i64)>,
) -> bool {
    forall|k: (i64, i64)| #[trigger]
        roots.contains(graph.root(k)) <==> linked_to(items, pins, k)
}

fn linked_roots(
    items: &SheetItems,
    graph: &mut NetGraph,
    roots: Vec<(i64, i64)>,
    names: &TextMap<bool>,
    Ghost(pins): Ghost<Seq<ComponentPin>>,
) -> (res: Vec<(i64, i64)>)
    requires
        graph_of(*items, *old(graph)),
        roots_of_pins(*old(graph), pins, roots@),
        forall|net: Seq<char>| #[trigger]
            names@.contains_key(net) <==> carries(*items, pins, net),
    ensures
        graph_of(*items, *final(graph)),
        final(graph).same_nets(*old(graph)),
        roots_tell_links(*items, *old(graph), pins, res@),
{
    let ghost start = *graph;
    let ghost first = roots@;
    let labels = &items.labels;
    let mut res = roots;
    let mut j: usize = 0;
    while j < labels.len()
        invariant
            j <= labels@.len(),
            labels@ == items.labels@,
            start == *old(graph),
            graph_of(*items, start),
            roots_of_pins(start, pins, first),
            graph_of(*items, *graph),
            graph.same_nets(start),
            forall|net: Seq<char>| #[trigger]
                names@.contains_key(net) <==> carries(*items, pins, net),
            forall|r: (i64, i64)| first.contains(r) ==> #[trigger] res@.contains(r),
            forall|r: (i64, i64)| #[trigger]
                res@.contains(r) ==> first.contains(r) || exists|x: (i64, i64)| #[trigger]
                    label_name(labels@, x) is Some && carries(
                        *items,
                        pins,
                        label_name(labels@, x)->0,
                    ) && start.root(x) == r,
            forall|m: int|
                0 <= m < j && carries(
                    *items,
                    pins,
                    label_name(labels@, node_of_label(#[trigger] labels@[m]))->0,
                ) ==> res@.contains(start.root(node_of_label(labels@[m]))),
        decreases labels@.len() - j,
    {
        let label = &labels[j];
        let k = pt_key(label.x, label.y);
        proof {
            lemma_label_names(labels@, j as int);
        }
        let ghost known = res@;
        if let Some(net) = name_at(labels, k) {
            if names.contains_key(net.as_str()) {
                let ghost before = *graph;
                let root = graph.find(k);
                res.push(root);
                proof {
                    lemma_graph_kept(*items, before, *graph);
                    crate::net_graph::lemma_same_nets_chain(start, before, *graph);
                    assert(before.root(k) == start.root(k));
                    assert(label_name(labels@, k) is Some);
                    assert forall|r: (i64, i64)| #[trigger]
                        res@.contains(r) <==> (known.contains(r) || r == root) by {
                        if known.contains(r) {
                            assert(res@[known.index_of(r)] == r);
                        }
                        if r == root {
                            assert(res@[known.len() as int] == r);
                        }
                        if res@.contains(r) {
                            let i = res@.index_of(r);
                            if i < known.len() {
                                assert(known[i] == r);
                            }
                        }
                    }
                    assert(carries(*items, pins, label_name(labels@, k)->0));
                }
            }
        }
        j += 1;
    }
    proof {
        assert forall|k: (i64, i64)| #[trigger]
            res@.contains(start.root(k)) <==> linked_to(*items, pins, k) by {
            let r = start.root(k);
            lemma_joined(*items, start, pins, first, k);
            if res@.contains(r) && !first.contains(r) {
                let x = choose|x: (i64, i64)| #[trigger]
                    label_name(labels@, x) is Some && carries(
                        *items,
                        pins,
                        label_name(labels@, x)->0,
                    ) && start.root(x) == r;
                let net = label_name(labels@, x)->0;
                assert(start.connected(x, k));
                assert(same_net(*items, x, k));
                assert(label_name(items.labels@, x) == Some(net));
                assert(on_net(*items, net, k));
                assert(carries(*items, pins, net) && on_net(*items, net, k));
            }
            if linked_to(*items, pins, k) && !joined(*items, pins, k) {
                let net = choose|net: Seq<char>| #[trigger]
                    carries(*items, pins, net) && on_net(*items, net, k);
                let x = choose|x: (i64, i64)| #[trigger]
                    label_name(items.labels@, x) == Some(net) && same_net(*items, x, k);
                let m = lemma_name_has_label(labels@, x);
                assert(start.connected(x, k));
                assert(res@.contains(start.root(node_of_label(labels@[m]))));
            }
        }
    }
    res
}

/// Adds a node to those that were found where it is connected.
fn keep_linked(
    items: &SheetItems,
    graph: &mut NetGraph,
    roots: &Vec<(i64, i64)>,
    k: (i64, i64),
    found: &mut Vec<(i64, i64)>,
    Ghost(start): Ghost<NetGraph>,
    Ghost(pins): Ghost<Seq<ComponentPin>>,
)
    requires
        graph_of(*items, *old(graph)),
        old(graph).same_nets(start),
        roots_tell_links(*items, start, pins, roots@),
    ensures
        graph_of(*items, *final(graph)),
        final(graph).same_nets(start),
        forall|x: (i64, i64)| #[trigger]
            final(found)@.contains(x) <==> old(found)@.contains(x) || (x == k && linked_to(
                *items,
                pins,
                k,
            )),
{
    let ghost before = *graph;
    let ghost known = found@;
    let root = graph.find(k);
    proof {
        lemma_graph_kept(*items, before, *graph);
        crate::net_graph::lemma_same_nets_chain(start, before, *graph);
        assert(before.root(k) == start.root(k));
        assert(roots@.contains(start.root(k)) <==> linked_to(*items, pins, k));
    }
    if contains_point(roots, root) {
        found.push(k);
        proof {
            assert forall|x: (i64, i64)| #[trigger]
                found@.contains(x) <==> known.contains(x) || x == k by {
                if known.contains(x) {
                    assert(found@[known.index_of(x)] == x);
                }
                if x == k {
                    assert(found@[known.len() as int] == x);
                }
                if found@.contains(x) {
                    let i = found@.index_of(x);
                    if i < known.len() {
                        assert(known[i] == x);
                    }
                }
            }
        }
    }
}

/// The nodes found are connected to these pins.
spec fn only_linked(
    items: SheetItems,
    pins: Seq<ComponentPin>,
    found: Seq<(i64, i64)>,
) -> bool {
    forall|x: (i64, i64)| #[trigger] found.contains(x) ==> linked_to(items, pins, x)
}

/// A connected node was found.
spec fn found_if_linked(
    items: SheetItems,
    pins: Seq<ComponentPin>,
    found: Seq<(i64, i64)>,
    k: (i64, i64),
) -> bool {
    linked_to(items, pins, k) ==> found.contains(k)
}

/// Lists everything that is connected to a component: the names of its nets,
/// the wires with an end on them, the labels on them or of their names, and the
/// other components with a pin on them. Nets without a name count as well.
/// `references` are those of all placed components; there is no answer where
/// the one asked about is not among them.
pub fn get_connected_items(
    items: &SheetItems,
    references: &Vec<String>,
    components: &Vec<PlacedComponent>,
    reference: &str,
) -> (res: Option<ConnectedItems>)
    ensures
        res is Some <==> texts(references@).contains(reference@),
        res matches Some(found) ==> ({
            let pins = pins_of(components@, reference@, components@.len());
            &&& texts(found.nets@) == ordered_list_of(
                Set::new(|net: Seq<char>| carries(*items, pins, net)),
            )
            &&& ints(found.wires@) == positions_where(
                |i: int|
                    linked_to(*items, pins, first_node(items.wires@[i])) || linked_to(
                        *items,
                        pins,
                        second_node(items.wires@[i]),
                    ),
                items.wires@.len(),
            )
            &&& ints(found.labels@) == positions_where(
                |i: int|
                    linked_to(*items, pins, node_of_label(items.labels@[i])) || carries(
                        *items,
                        pins,
                        items.labels@[i].net@,
                    ),
                items.labels@.len(),
            )
            &&& lists_components(
                found.components@,
                components@,
                |k: (i64, i64)| linked_to(*items, pins, k),
                components_where(
                    components@,
                    |k: (i64, i64)| linked_to(*items, pins, k),
                    Some(reference@),
                ),
            )
            &&& names_every_pin(
                found.components@,
                components@,
                |k: (i64, i64)| linked_to(*items, pins, k),
                Some(reference@),
            )
        }),
{
    if !contains_text(references, reference) {
        return None;
    }
    let ghost pins = pins_of(components@, reference@, components@.len());
    let mut graph = build_graph(items);
    let ghost start = graph;
    let own = pin_roots(items, &mut graph, components, reference);
    let ghost second = graph;
    proof {
        assert forall|r: (i64, i64)| #[trigger]
            own@.contains(r) <==> exists|p: int|
                0 <= p < pins.len() && second.root(pin_node(#[trigger] pins[p])) == r by {
            assert forall|p: int| 0 <= p < pins.len() implies second.root(
                pin_node(#[trigger] pins[p]),
            ) == start.root(pin_node(pins[p])) by {}
            assert(own@.contains(r) <==> exists|p: int|
                0 <= p < pins.len() && start.root(pin_node(#[trigger] pins[p])) == r);
        }
    }
    let names = carried_names(items, &mut graph, &own, Ghost(pins));
    let ghost third = graph;
    proof {
        assert forall|r: (i64, i64)| #[trigger]
            own@.contains(r) <==> exists|p: int|
                0 <= p < pins.len() && third.root(pin_node(#[trigger] pins[p])) == r by {
            assert forall|p: int| 0 <= p < pins.len() implies third.root(
                pin_node(#[trigger] pins[p]),
            ) == second.root(pin_node(pins[p])) by {}
            assert(own@.contains(r) <==> exists|p: int|
                0 <= p < pins.len() && second.root(pin_node(#[trigger] pins[p])) == r);
        }
    }
    let roots = linked_roots(items, &mut graph, own, &names, Ghost(pins));
    let mut found: Vec<(i64, i64)> = Vec::new();
    let mut i: usize = 0;
    while i < items.wires.len()
        invariant
            i <= items.wires@.len(),
            graph_of(*items, graph),
            graph.same_nets(third),
            roots_tell_links(*items, third, pins, roots@),
            only_linked(*items, pins, found@),
            forall|m: int|
                0 <= m < i ==> found_if_linked(
                    *items,
                    pins,
                    found@,
                    first_node(#[trigger] items.wires@[m]),
                ) && found_if_linked(*items, pins, found@, second_node(items.wires@[m])),
        decreases items.wires@.len() - i,
    {
        let wire = &items.wires[i];
        keep_linked(
            items,
            &mut graph,
            &roots,
            pt_key(wire.x1, wire.y1),
            &mut found,
            Ghost(third),
            Ghost(pins),
        );
        keep_linked(
            items,
            &mut graph,
            &roots,
            pt_key(wire.x2, wire.y2),
            &mut found,
            Ghost(third),
            Ghost(pins),
        );
        i += 1;
    }
    let ghost on = |k: (i64, i64)| linked_to(*items, pins, k);
    assert(tells_of_wires(found@, items.wires@, on));
    let wires = wires_at_points(items, &found, Ghost(on));
    proof {
        lemma_same_positions(
            |i: int| on(first_node(items.wires@[i])) || on(second_node(items.wires@[i])),
            |i: int|
                linked_to(*items, pins, first_node(items.wires@[i])) || linked_to(
                    *items,
                    pins,
                    second_node(items.wires@[i]),
                ),
            items.wires@.len(),
        );
    }
    let labels = &items.labels;
    let ghost chosen = |i: int|
        linked_to(*items, pins, node_of_label(items.labels@[i])) || carries(
            *items,
            pins,
            items.labels@[i].net@,
        );
    let mut listed: Vec<usize> = Vec::new();
    let mut j: usize = 0;
    assert(ints(listed@) =~= positions_where(chosen, 0));
    while j < labels.len()
        invariant
            j <= labels@.len(),
            labels@ == items.labels@,
            graph_of(*items, graph),
            graph.same_nets(third),
            roots_tell_links(*items, third, pins, roots@),
            forall|net: Seq<char>| #[trigger]
                names@.contains_key(net) <==> carries(*items, pins, net),
            chosen == (|i: int|
                linked_to(*items, pins, node_of_label(items.labels@[i])) || carries(
                    *items,
                    pins,
                    items.labels@[i].net@,
                )),
            ints(listed@) == positions_where(chosen, j as nat),
        decreases labels@.len() - j,
    {
        let label = &labels[j];
        let k = pt_key(label.x, label.y);
        let ghost before = graph;
        let ghost known = ints(listed@);
        let root = graph.find(k);
        proof {
            lemma_graph_kept(*items, before, graph);
            crate::net_graph::lemma_same_nets_chain(third, before, graph);
            assert(before.root(k) == third.root(k));
            assert(roots@.contains(third.root(k)) <==> linked_to(*items, pins, k));
            assert(chosen(j as int) == (linked_to(*items, pins, k) || carries(
                *items,
                pins,
                label.net@,
            )));
        }
        if contains_point(&roots, root) || names.contains_key(label.net.as_str()) {
            listed.push(j);
            assert(ints(listed@) =~= known.push(j as int));
        }
        j += 1;
    }
    let mut c: usize = 0;
    while c < components.len()
        invariant
            c <= components@.len(),
            graph_of(*items, graph),
            graph.same_nets(third),
            roots_tell_links(*items, third, pins, roots@),
            only_linked(*items, pins, found@),
            forall|m: int, q: int|
                #![trigger components@[m].pins@[q]]
                0 <= m < c && 0 <= q < components@[m].pins@.len() ==> found_if_linked(
                    *items,
                    pins,
                    found@,
                    pin_node(components@[m].pins@[q]),
                ),
        decreases components@.len() - c,
    {
        let component = &components[c];
        let mut p: usize = 0;
        while p < component.pins.len()
            invariant
                p <= component.pins@.len(),
                c < components@.len(),
                *component == components@[c as int],
                graph_of(*items, graph),
                graph.same_nets(third),
                roots_tell_links(*items, third, pins, roots@),
                only_linked(*items, pins, found@),
                forall|m: int, q: int|
                    #![trigger components@[m].pins@[q]]
                    0 <= m < c && 0 <= q < components@[m].pins@.len() ==> found_if_linked(
                        *items,
                        pins,
                        found@,
                        pin_node(components@[m].pins@[q]),
                    ),
                forall|q: int|
                    0 <= q < p ==> found_if_linked(
                        *items,
                        pins,
                        found@,
                        pin_node(#[trigger] component.pins@[q]),
                    ),
            decreases component.pins@.len() - p,
        {
            let pin = &component.pins[p];
            keep_linked(
                items,
                &mut graph,
                &roots,
                pt_key(pin.x, pin.y),
                &mut found,
                Ghost(third),
                Ghost(pins),
            );
            p += 1;
        }
        c += 1;
    }
    proof {
        assert forall|m: int| 0 <= m < components@.len() implies tells_of_pins(
            found@,
            (#[trigger] components@[m]).pins@,
            on,
        ) by {
            assert forall|q: int| 0 <= q < components@[m].pins@.len() implies found@.contains(
                pin_node(#[trigger] components@[m].pins@[q]),
            ) == on(pin_node(components@[m].pins@[q])) by {
                assert(found_if_linked(
                    *items,
                    pins,
                    found@,
                    pin_node(components@[m].pins@[q]),
                ));
            }
        }
    }
    let others = components_at_points(components, &found, Some(reference), Ghost(on));
    let nets = ordered_keys(&names);
    proof {
        let wanted = Set::new(|net: Seq<char>| carries(*items, pins, net));
        assert(names@.dom() =~= wanted);
    }
    Some(ConnectedItems { nets, wires, labels: listed, components: others })
}

/// A wire from a pin connects what its other end meets, named or not.
pub proof fn law_a_wire_from_a_pin_connects(
    items: SheetItems,
    pins: Seq<ComponentPin>,
    p: int,
    i: int,
)
    requires
        0 <= p < pins.len(),
        0 <= i < items.wires@.len(),
        pin_node(pins[p]) == first_node(items.wires@[i]) || pin_node(pins[p]) == second_node(
            items.wires@[i],
        ),
    ensures
        linked_to(items, pins, first_node(items.wires@[i])),
        linked_to(items, pins, second_node(items.wires@[i])),
{
    let (a, b) = (first_node(items.wires@[i]), second_node(items.wires@[i]));
    let links = sheet_links(
        items.wires@,
        label_places(items.labels@),
        items.junctions@,
        COINCIDENT_TOLERANCE as int,
    );
    assert(links.contains((a, b)));
    lemma_reach_self(links, a);
    lemma_reach_self(links, b);
    assert(is_path(links, seq![a, b]));
    assert(is_path(links, seq![b, a]));
    assert(seq![a, b].last() == b && seq![b, a].last() == a);
    assert(reachable(links, a, b) && reachable(links, b, a));
    assert(same_net(items, pin_node(pins[p]), a));
    assert(same_net(items, pin_node(pins[p]), b));
}

} // verus!
