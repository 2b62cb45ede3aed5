//! Questions about the nets of a sheet.

use crate::connectivity::{
    first_node, label_name, names_nodes, net_graph_for, second_node, SheetItems,
};
use crate::geometry::{
    coincident, micro, on_wire, point_on_wire, points_coincident, pt_key, Label, Wire,
};
use crate::lists::{ints, lemma_positions, lemma_same_positions, positions_where};
use crate::net_graph::{lemma_connected_is_node, lemma_labelled_is_node, named_at, NetGraph};
use crate::sheet_reports::same_net;
use crate::single_pin::{ComponentPin, PlacedComponent};
use crate::text::{contains_text, text_eq, texts};
use vstd::prelude::*;
use vstd::string::*;

verus! {

/// A label gives this name to the net of a node.
pub open spec fn on_net(items: SheetItems, net: Seq<char>, k: (i64, i64)) -> bool {
    exists|x: (i64, i64)| #[trigger]
        label_name(items.labels@, x) == Some(net) && same_net(items, x, k)
}

/// No label names the net of a node.
pub open spec fn nameless(items: SheetItems, k: (i64, i64)) -> bool {
    forall|net: Seq<char>| !#[trigger] on_net(items, net, k)
}

/// The name is one that the net of a node has; there is none where no label
/// names it.
pub open spec fn names_net(items: SheetItems, k: (i64, i64), name: Option<String>) -> bool {
    match name {
        Some(net) => on_net(items, net@, k),
        None => nameless(items, k),
    }
}

/// The graph is that of the sheet.
pub open spec fn graph_of(items: SheetItems, graph: NetGraph) -> bool {
    &&& graph.valid()
    &&& names_nodes(graph, items.labels@)
    &&& forall|a: (i64, i64), b: (i64, i64)| #[trigger]
        graph.connected(a, b) <==> same_net(items, a, b)
}

/// Looking things up leaves the graph that of the sheet.
pub proof fn lemma_graph_kept(items: SheetItems, before: NetGraph, after: NetGraph)
    requires
        graph_of(items, before),
        after.valid(),
        after.same_nets(before),
    ensures
        graph_of(items, after),
{
    assert forall|a: (i64, i64), b: (i64, i64)| #[trigger]
        after.connected(a, b) <==> same_net(items, a, b) by {
        assert(before.connected(a, b) <==> same_net(items, a, b));
        assert(after.root(a) == before.root(a));
        assert(after.root(b) == before.root(b));
    }
    assert forall|k: (i64, i64)| #[trigger] after.labelled(k) <==> label_name(
        items.labels@,
        k,
    ) is Some by {
        assert(after.labelled(k) == before.labelled(k));
    }
    assert forall|k: (i64, i64)| #![trigger after.name(k)] after.labelled(k) implies label_name(
        items.labels@,
        k,
    ) == Some(after.name(k)) by {
        assert(after.labelled(k) == before.labelled(k));
        assert(after.name(k) == before.name(k));
    }
}

proof fn lemma_named(items: SheetItems, graph: NetGraph, k: (i64, i64), net: Seq<char>)
    requires
        graph_of(items, graph),
    ensures
        named_at(graph, k, net) == on_net(items, net, k),
        on_net(items, net, k) ==> graph.has(k),
{
    if named_at(graph, k, net) {
        let x = choose|x: (i64, i64)| #[trigger]
            graph.labelled(x) && graph.connected(x, k) && graph.name(x) == net;
        assert(label_name(items.labels@, x) == Some(graph.name(x)));
        assert(graph.connected(x, k) <==> same_net(items, x, k));
    }
    if on_net(items, net, k) {
        let x = choose|x: (i64, i64)| #[trigger]
            label_name(items.labels@, x) == Some(net) && same_net(items, x, k);
        assert(graph.labelled(x));
        assert(label_name(items.labels@, x) == Some(graph.name(x)));
        assert(graph.connected(x, k) <==> same_net(items, x, k));
        lemma_labelled_is_node(graph, x);
        lemma_connected_is_node(graph, x, k);
    }
}

/// Builds the graph of a sheet.
pub(crate) fn build_graph(items: &SheetItems) -> (res: NetGraph)
    ensures
        graph_of(*items, res),
{
    let graph = net_graph_for(items);
    proof {
        assert forall|a: (i64, i64), b: (i64, i64)| #[trigger]
            graph.connected(a, b) <==> same_net(*items, a, b) by {}
    }
    graph
}

/// The name that the graph finds at a place.
fn find_name(items: &SheetItems, graph: &mut NetGraph, x: i64, y: i64) -> (res: Option<String>)
    requires
        graph_of(*items, *old(graph)),
    ensures
        graph_of(*items, *final(graph)),
        names_net(*items, micro(x as int, y as int), res),
{
    let ghost before = *graph;
    let res = graph.net_at(x, y);
    proof {
        lemma_graph_kept(*items, before, *graph);
        let k = micro(x as int, y as int);
        match &res {
            Some(net) => {
                lemma_named(*items, before, k, net@);
            },
            None => {
                assert forall|net: Seq<char>| !#[trigger] on_net(*items, net, k) by {
                    lemma_named(*items, before, k, net);
                    if named_at(before, k, net) {
                        let z = choose|z: (i64, i64)| #[trigger]
                            before.labelled(z) && before.connected(z, k) && before.name(z) == net;
                        assert(before.labelled(z));
                    }
                }
            },
        }
    }
    res
}

/// The list holds exactly the nodes on nets of this name, each once.
pub open spec fn lists_net(items: SheetItems, net: Seq<char>, list: Seq<(i64, i64)>) -> bool {
    &&& list.no_duplicates()
    &&& forall|k: (i64, i64)| #[trigger] list.contains(k) <==> on_net(items, net, k)
}

fn find_points(items: &SheetItems, graph: &mut NetGraph, net: &str) -> (res: Vec<(i64, i64)>)
    requires
        graph_of(*items, *old(graph)),
    ensures
        graph_of(*items, *final(graph)),
        lists_net(*items, net@, res@),
{
    let ghost before = *graph;
    let res = graph.points_on_net(net);
    proof {
        lemma_graph_kept(*items, before, *graph);
        assert forall|k: (i64, i64)| #[trigger] res@.contains(k) <==> on_net(
            *items,
            net@,
            k,
        ) by {
            lemma_named(*items, before, k, net@);
        }
    }
    res
}

/// The nodes on the nets of this name.
pub fn points_on_net(items: &SheetItems, net: &str) -> (res: Vec<(i64, i64)>)
    ensures
        lists_net(*items, net@, res@),
{
    let mut graph = build_graph(items);
    find_points(items, &mut graph, net)
}

/// Whether a node is in a list.
pub(crate) fn contains_point(list: &Vec<(i64, i64)>, k: (i64, i64)) -> (res: bool)
    ensures
        res == list@.contains(k),
{
    let mut i: usize = 0;
    while i < list.len()
        invariant
            i <= list@.len(),
            forall|j: int| 0 <= j < i ==> #[trigger] list@[j] != k,
        decreases list@.len() - i,
    {
        let own = list[i];
        if own.0 == k.0 && own.1 == k.1 {
            assert(list@[i as int] == k);
            return true;
        }
        i += 1;
    }
    false
}

/// The positions of the labels of this name.
pub open spec fn labels_named(labels: Seq<Label>, net: Seq<char>) -> Seq<int> {
    positions_where(|i: int| labels[i].net@ == net, labels.len())
}

/// One of the ends of the wire is on a net of this name.
pub open spec fn wire_on_net(items: SheetItems, net: Seq<char>, wire: Wire) -> bool {
    on_net(items, net, first_node(wire)) || on_net(items, net, second_node(wire))
}

/// The labels of this name.
pub fn find_labels(labels: &Vec<Label>, net: &str) -> (res: Vec<usize>)
    ensures
        ints(res@) == labels_named(labels@, net@),
        forall|l: int|
            0 <= l < labels@.len() ==> (ints(res@).contains(l) <==> (#[trigger] labels@[l]).net@
                == net@),
{
    let mut res: Vec<usize> = Vec::new();
    let ghost holds = |i: int| labels@[i].net@ == net@;
    let mut i: usize = 0;
    assert(ints(res@) =~= positions_where(holds, 0));
    while i < labels.len()
        invariant
            i <= labels@.len(),
            holds == (|i: int| labels@[i].net@ == net@),
            ints(res@) == positions_where(holds, i as nat),
        decreases labels@.len() - i,
    {
        let ghost before = ints(res@);
        assert(holds(i as int) == (labels@[i as int].net@ == net@));
        if text_eq(labels[i].net.as_str(), net) {
            res.push(i);
            assert(ints(res@) =~= before.push(i as int));
        }
        i += 1;
    }
    proof {
        lemma_positions(holds, labels@.len());
        let list = ints(res@);
        assert forall|l: int| 0 <= l < labels@.len() implies (list.contains(l) <==> (
        #[trigger] labels@[l]).net@ == net@) by {
            if list.contains(l) {
                let q = list.index_of(l);
                assert(holds(list[q]));
            }
            assert(holds(l) == (labels@[l].net@ == net@));
        }
    }
    res
}

/// The wires and labels of a net.
#[derive(PartialEq, Eq, Debug)]
pub struct NetConnectivity {
    pub wires: Vec<usize>,
    pub labels: Vec<usize>,
}

/// The list tells of the ends of these wires where `on` holds.
pub open spec fn tells_of_wires(
    points: Seq<(i64, i64)>,
    wires: Seq<Wire>,
    on: spec_fn((i64, i64)) -> bool,
) -> bool {
    forall|i: int|
        0 <= i < wires.len() ==> {
            &&& points.contains(first_node(#[trigger] wires[i])) == on(first_node(wires[i]))
            &&& points.contains(second_node(wires[i])) == on(second_node(wires[i]))
        }
}

/// The wires with an end where `on` holds.
pub(crate) fn wires_at_points(
    items: &SheetItems,
    points: &Vec<(i64, i64)>,
    Ghost(on): Ghost<spec_fn((i64, i64)) -> bool>,
) -> (res: Vec<usize>)
    requires
        tells_of_wires(points@, items.wires@, on),
    ensures
        ints(res@) == positions_where(
            |i: int|
                on(first_node(items.wires@[i])) || on(second_node(items.wires@[i])),
            items.wires@.len(),
        ),
{
    let wires = &items.wires;
    let mut res: Vec<usize> = Vec::new();
    let ghost holds = |i: int|
        on(first_node(items.wires@[i])) || on(second_node(items.wires@[i]));
    let mut i: usize = 0;
    assert(ints(res@) =~= positions_where(holds, 0));
    while i < wires.len()
        invariant
            i <= wires@.len(),
            wires@ == items.wires@,
            tells_of_wires(points@, items.wires@, on),
            holds == (|i: int|
                on(first_node(items.wires@[i])) || on(second_node(items.wires@[i]))),
            ints(res@) == positions_where(holds, i as nat),
        decreases wires@.len() - i,
    {
        let wire = &wires[i];
        let ghost before = ints(res@);
        let (a, b) = (pt_key(wire.x1, wire.y1), pt_key(wire.x2, wire.y2));
        assert(holds(i as int) == (on(first_node(*wire)) || on(second_node(*wire))));
        if contains_point(points, a) || contains_point(points, b) {
            res.push(i);
            assert(ints(res@) =~= before.push(i as int));
        }
        i += 1;
    }
    res
}

/// The wires and labels of a net.
pub fn get_net_connectivity(items: &SheetItems, net: &str) -> (res: NetConnectivity)
    ensures
        ints(res.labels@) == labels_named(items.labels@, net@),
        forall|l: int|
            0 <= l < items.labels@.len() ==> (ints(res.labels@).contains(l) <==> (
            #[trigger] items.labels@[l]).net@ == net@),
        ints(res.wires@) == positions_where(
            |i: int| wire_on_net(*items, net@, items.wires@[i]),
            items.wires@.len(),
        ),
{
    let points = points_on_net(items, net);
    let ghost on = |k: (i64, i64)| on_net(*items, net@, k);
    let wires = wires_at_points(items, &points, Ghost(on));
    proof {
        lemma_same_positions(
            |i: int| on(first_node(items.wires@[i])) || on(second_node(items.wires@[i])),
            |i: int| wire_on_net(*items, net@, items.wires@[i]),
            items.wires@.len(),
        );
    }
    NetConnectivity { wires, labels: find_labels(&items.labels, net) }
}

/// The answer to a question about a pin.
#[derive(PartialEq, Eq, Debug)]
pub enum PinConnection {
    /// There is no component of this reference.
    NoComponent,
    /// The component has no such pin.
    NoPin,
    /// The pin, where it ends and the name of its net.
    Pin { x: i64, y: i64, net: Option<String> },
}

/// The pin belongs to the reference and has this number.
pub open spec fn is_pin(
    components: Seq<PlacedComponent>,
    reference: Seq<char>,
    number: Seq<char>,
    c: int,
    p: int,
) -> bool {
    &&& 0 <= c < components.len()
    &&& 0 <= p < components[c].pins@.len()
    &&& components[c].reference@ == reference
    &&& components[c].pins@[p].pin.number@ == number
}

/// A pin before this one belongs to the reference and has this number.
pub open spec fn earlier_pin(
    components: Seq<PlacedComponent>,
    reference: Seq<char>,
    number: Seq<char>,
    c: int,
    p: int,
) -> bool {
    exists|a: int, b: int| #[trigger]
        is_pin(components, reference, number, a, b) && (a < c || (a == c && b < p))
}

fn find_pin(
    components: &Vec<PlacedComponent>,
    reference: &str,
    number: &str,
) -> (res: Option<(usize, usize)>)
    ensures
        match res {
            Some(found) => is_pin(
                components@,
                reference@,
                number@,
                found.0 as int,
                found.1 as int,
            ) && !earlier_pin(
                components@,
                reference@,
                number@,
                found.0 as int,
                found.1 as int,
            ),
            None => !earlier_pin(components@, reference@, number@, components@.len() as int, 0),
        },
{
    let mut c: usize = 0;
    while c < components.len()
        invariant
            c <= components@.len(),
            !earlier_pin(components@, reference@, number@, c as int, 0),
        decreases components@.len() - c,
    {
        let component = &components[c];
        let owns = text_eq(component.reference.as_str(), reference);
        let mut p: usize = 0;
        while p < component.pins.len()
            invariant
                c < components@.len(),
                *component == components@[c as int],
                p <= component.pins@.len(),
                owns == (component.reference@ == reference@),
                !earlier_pin(components@, reference@, number@, c as int, p as int),
            decreases component.pins@.len() - p,
        {
            let hit = owns && text_eq(component.pins[p].pin.number.as_str(), number);
            if hit {
                assert(is_pin(components@, reference@, number@, c as int, p as int));
                return Some((c, p));
            }
            assert(!is_pin(components@, reference@, number@, c as int, p as int));
            assert(!earlier_pin(components@, reference@, number@, c as int, p + 1));
            p += 1;
        }
        assert(!earlier_pin(components@, reference@, number@, c + 1, 0));
        c += 1;
    }
    None
}

/// Finds a pin and the name of the net that it is on. `references` are those of
/// every component of the sheet.
pub fn get_pin_connections(
    items: &SheetItems,
    references: &Vec<String>,
    components: &Vec<PlacedComponent>,
    reference: &str,
    number: &str,
) -> (res: PinConnection)
    ensures
        match res {
            PinConnection::NoComponent => !texts(references@).contains(reference@),
            PinConnection::NoPin => texts(references@).contains(reference@) && !earlier_pin(
                components@,
                reference@,
                number@,
                components@.len() as int,
                0,
            ),
            PinConnection::Pin { x, y, net } => texts(references@).contains(reference@)
                && exists|c: int, p: int| #[trigger]
                is_pin(components@, reference@, number@, c, p) && !earlier_pin(
                    components@,
                    reference@,
                    number@,
                    c,
                    p,
                ) && x == components@[c].pins@[p].x && y == components@[c].pins@[p].y && names_net(
                    *items,
                    micro(x as int, y as int),
                    net,
                ),
        },
{
    if !contains_text(references, reference) {
        return PinConnection::NoComponent;
    }
    match find_pin(components, reference, number) {
        None => PinConnection::NoPin,
        Some((c, p)) => {
            let (x, y) = (components[c].pins[p].x, components[c].pins[p].y);
            let mut graph = build_graph(items);
            let net = find_name(items, &mut graph, x, y);
            assert(is_pin(components@, reference@, number@, c as int, p as int));
            PinConnection::Pin { x, y, net }
        },
    }
}

/// A pin of a component and the name of the net that it is on.
#[derive(PartialEq, Eq, Debug)]
pub struct PinNet {
    pub number: String,
    pub name: String,
    pub x: i64,
    pub y: i64,
    pub net: Option<String>,
}

/// The answer is about this pin.
pub open spec fn answers(items: SheetItems, own: ComponentPin, answer: PinNet) -> bool {
    &&& answer.number@ == own.pin.number@
    &&& answer.name@ == own.pin.name@
    &&& answer.x == own.x
    &&& answer.y == own.y
    &&& names_net(items, micro(own.x as int, own.y as int), answer.net)
}

/// The pins of the components of this reference, among the first `n`.
pub open spec fn pins_of(
    components: Seq<PlacedComponent>,
    reference: Seq<char>,
    n: nat,
) -> Seq<ComponentPin>
    decreases n,
{
    if n == 0 {
        Seq::empty()
    } else {
        let rest = pins_of(components, reference, (n - 1) as nat);
        if components[n - 1].reference@ == reference {
            rest + components[n - 1].pins@
        } else {
            rest
        }
    }
}

/// The answers are about these pins, in order.
pub open spec fn answers_all(
    items: SheetItems,
    pins: Seq<ComponentPin>,
    list: Seq<PinNet>,
) -> bool {
    &&& list.len() == pins.len()
    &&& forall|i: int| 0 <= i < list.len() ==> answers(items, pins[i], #[trigger] list[i])
}

/// The net of each pin of a component; nothing where there is no component of
/// this reference.
pub fn get_component_nets(
    items: &SheetItems,
    references: &Vec<String>,
    components: &Vec<PlacedComponent>,
    reference: &str,
) -> (res: Option<Vec<PinNet>>)
    ensures
        res is Some <==> texts(references@).contains(reference@),
        res matches Some(list) ==> answers_all(
            *items,
            pins_of(components@, reference@, components@.len()),
            list@,
        ),
{
    if !contains_text(references, reference) {
        return None;
    }
    let mut graph = build_graph(items);
    let mut res: Vec<PinNet> = Vec::new();
    let mut c: usize = 0;
    while c < components.len()
        invariant
            c <= components@.len(),
            graph_of(*items, graph),
            answers_all(*items, pins_of(components@, reference@, c as nat), res@),
        decreases components@.len() - c,
    {
        let component = &components[c];
        if text_eq(component.reference.as_str(), reference) {
            let ghost rest = pins_of(components@, reference@, c as nat);
            let mut p: usize = 0;
            assert(rest + component.pins@.take(0) =~= rest);
            while p < component.pins.len()
                invariant
                    p <= component.pins@.len(),
                    graph_of(*items, graph),
                    answers_all(*items, rest + component.pins@.take(p as int), res@),
                decreases component.pins@.len() - p,
            {
                let own = &component.pins[p];
                let ghost before = res@;
                let ghost listed = rest + component.pins@.take(p as int);
                let net = find_name(items, &mut graph, own.x, own.y);
                let answer = PinNet {
                    number: own.pin.number.clone(),
                    name: own.pin.name.clone(),
                    x: own.x,
                    y: own.y,
                    net,
                };
                res.push(answer);
                proof {
                    let now = rest + component.pins@.take(p + 1);
                    assert(now =~= listed.push(*own));
                    assert forall|i: int| 0 <= i < res@.len() implies answers(
                        *items,
                        now[i],
                        #[trigger] res@[i],
                    ) by {
                        if i < before.len() {
                            assert(res@[i] == before[i]);
                            assert(now[i] == listed[i]);
                        }
                    }
                }
                p += 1;
            }
            assert(component.pins@.take(p as int) =~= component.pins@);
        }
        c += 1;
    }
    Some(res)
}

/// A component with those of its pins that are on a net.
#[derive(PartialEq, Eq, Debug)]
pub struct ComponentOnNet {
    pub component: usize,
    pub pins: Vec<usize>,
}

/// The positions of the pins of a component that are where `on` holds.
pub open spec fn pins_where(component: PlacedComponent, on: spec_fn((i64, i64)) -> bool) -> Seq<
    int,
> {
    positions_where(
        |p: int| on(micro(component.pins@[p].x as int, component.pins@[p].y as int)),
        component.pins@.len(),
    )
}

/// The positions of the components, other than those of `except`, with a pin
/// where `on` holds.
pub open spec fn components_where(
    components: Seq<PlacedComponent>,
    on: spec_fn((i64, i64)) -> bool,
    except: Option<Seq<char>>,
) -> Seq<int> {
    positions_where(
        |c: int|
            except != Some(components[c].reference@) && pins_where(components[c], on).len() > 0,
        components.len(),
    )
}

/// The list holds these components with their pins.
pub open spec fn lists_components(
    list: Seq<ComponentOnNet>,
    components: Seq<PlacedComponent>,
    on: spec_fn((i64, i64)) -> bool,
    wanted: Seq<int>,
) -> bool {
    &&& list.len() == wanted.len()
    &&& forall|i: int|
        0 <= i < list.len() ==> (#[trigger] list[i]).component == wanted[i] && ints(list[i].pins@)
            == pins_where(components[wanted[i]], on)
}

/// An entry of the list names this pin of this component.
pub open spec fn names_pin(list: Seq<ComponentOnNet>, c: int, p: int) -> bool {
    exists|e: int|
        0 <= e < list.len() && (#[trigger] list[e]).component == c && list[e].pins@.contains(
            p as usize,
        )
}

/// The list names exactly the pins where `on` holds, but for those of the
/// components left out. A component has one entry, with at least one pin, and
/// both components and pins are in order.
pub open spec fn names_every_pin(
    list: Seq<ComponentOnNet>,
    components: Seq<PlacedComponent>,
    on: spec_fn((i64, i64)) -> bool,
    except: Option<Seq<char>>,
) -> bool {
    &&& forall|c: int, p: int|
        #![trigger components[c].pins@[p]]
        0 <= c < components.len() && 0 <= p < components[c].pins@.len() ==> (names_pin(list, c, p)
            <==> except != Some(components[c].reference@) && on(
            micro(components[c].pins@[p].x as int, components[c].pins@[p].y as int),
        ))
    &&& forall|e: int|
        0 <= e < list.len() ==> {
            &&& (#[trigger] list[e]).component < components.len()
            &&& list[e].pins@.len() > 0
            &&& forall|q: int|
                0 <= q < list[e].pins@.len() ==> #[trigger] list[e].pins@[q]
                    < components[list[e].component as int].pins@.len()
            &&& forall|q: int, r: int|
                0 <= q < r < list[e].pins@.len() ==> #[trigger] list[e].pins@[q]
                    < #[trigger] list[e].pins@[r]
        }
    &&& forall|d: int, e: int|
        0 <= d < e < list.len() ==> (#[trigger] list[d]).component < (#[trigger] list[e]).component
}

/// The pins of a net are all listed, and no other.
pub proof fn law_every_pin_on_a_net_is_listed(
    list: Seq<ComponentOnNet>,
    components: Seq<PlacedComponent>,
    on: spec_fn((i64, i64)) -> bool,
    except: Option<Seq<char>>,
)
    requires
        lists_components(list, components, on, components_where(components, on, except)),
    ensures
        names_every_pin(list, components, on, except),
{
    let wanted = components_where(components, on, except);
    lemma_positions(
        |c: int|
            except != Some(components[c].reference@) && pins_where(components[c], on).len() > 0,
        components.len(),
    );
    assert forall|e: int| 0 <= e < list.len() implies {
        &&& (#[trigger] list[e]).component < components.len()
        &&& list[e].pins@.len() > 0
        &&& forall|q: int|
            0 <= q < list[e].pins@.len() ==> #[trigger] list[e].pins@[q]
                < components[list[e].component as int].pins@.len()
        &&& forall|q: int, r: int|
            0 <= q < r < list[e].pins@.len() ==> #[trigger] list[e].pins@[q]
                < #[trigger] list[e].pins@[r]
    } by {
        let c = wanted[e];
        lemma_pins_where(components[c], on);
        let own = pins_where(components[c], on);
        assert(ints(list[e].pins@).len() == own.len());
        assert forall|q: int| 0 <= q < list[e].pins@.len() implies #[trigger] list[e].pins@[q]
            == own[q] by {
            assert(ints(list[e].pins@)[q] == list[e].pins@[q] as int);
        }
    }
    assert forall|d: int, e: int| 0 <= d < e < list.len() implies (#[trigger] list[d]).component
        < (#[trigger] list[e]).component by {
        assert(list[d].component == wanted[d] && list[e].component == wanted[e]);
    }
    assert forall|c: int, p: int|
        #![trigger components[c].pins@[p]]
        0 <= c < components.len() && 0 <= p < components[c].pins@.len() implies (names_pin(
        list,
        c,
        p,
    ) <==> except != Some(components[c].reference@) && on(
        micro(components[c].pins@[p].x as int, components[c].pins@[p].y as int),
    )) by {
        let own = pins_where(components[c], on);
        lemma_pins_where(components[c], on);
        assert(components[c].pins@.len() == components[c].pins.len() as nat);
        if names_pin(list, c, p) {
            let e = choose|e: int|
                0 <= e < list.len() && (#[trigger] list[e]).component == c
                    && list[e].pins@.contains(p as usize);
            let q = list[e].pins@.index_of(p as usize);
            assert(wanted[e] == c);
            assert(ints(list[e].pins@)[q] == p);
            assert(own[q] == p);
        }
        if except != Some(components[c].reference@) && on(
            micro(components[c].pins@[p].x as int, components[c].pins@[p].y as int),
        ) {
            assert(own.contains(p));
            let q = own.index_of(p);
            assert(own.len() > 0);
            assert(wanted.contains(c));
            let e = wanted.index_of(c);
            assert(list[e].component == c);
            assert(ints(list[e].pins@)[q] == p);
            assert(list[e].pins@[q] == p as usize);
        }
    }
}

proof fn lemma_pins_where(component: PlacedComponent, on: spec_fn((i64, i64)) -> bool)
    ensures
        ({
            let own = pins_where(component, on);
            &&& forall|q: int|
                0 <= q < own.len() ==> 0 <= #[trigger] own[q] < component.pins@.len() && on(
                    micro(component.pins@[own[q]].x as int, component.pins@[own[q]].y as int),
                )
            &&& forall|p: int|
                0 <= p < component.pins@.len() && on(
                    micro(component.pins@[p].x as int, component.pins@[p].y as int),
                ) ==> #[trigger] own.contains(p)
            &&& forall|q: int, r: int|
                0 <= q < r < own.len() ==> #[trigger] own[q] < #[trigger] own[r]
        }),
{
    lemma_positions(
        |p: int| on(micro(component.pins@[p].x as int, component.pins@[p].y as int)),
        component.pins@.len(),
    );
}

/// The node of a pin.
pub open spec fn pin_node(pin: ComponentPin) -> (i64, i64) {
    micro(pin.x as int, pin.y as int)
}

/// The list tells of these pins where `on` holds.
pub open spec fn tells_of_pins(
    points: Seq<(i64, i64)>,
    pins: Seq<ComponentPin>,
    on: spec_fn((i64, i64)) -> bool,
) -> bool {
    forall|p: int|
        0 <= p < pins.len() ==> points.contains(pin_node(#[trigger] pins[p])) == on(
            pin_node(pins[p]),
        )
}

/// The list tells of the pins of these components where `on` holds.
pub open spec fn tells_of_components(
    points: Seq<(i64, i64)>,
    components: Seq<PlacedComponent>,
    on: spec_fn((i64, i64)) -> bool,
) -> bool {
    forall|c: int|
        0 <= c < components.len() ==> tells_of_pins(points, (#[trigger] components[c]).pins@, on)
}

fn pins_at_points(
    component: &PlacedComponent,
    points: &Vec<(i64, i64)>,
    Ghost(on): Ghost<spec_fn((i64, i64)) -> bool>,
) -> (res: Vec<usize>)
    requires
        tells_of_pins(points@, component.pins@, on),
    ensures
        ints(res@) == pins_where(*component, on),
{
    let pins = &component.pins;
    let ghost holds = |p: int|
        on(micro(component.pins@[p].x as int, component.pins@[p].y as int));
    let mut res: Vec<usize> = Vec::new();
    let mut p: usize = 0;
    assert(ints(res@) =~= positions_where(holds, 0));
    while p < pins.len()
        invariant
            p <= pins@.len(),
            pins@ == component.pins@,
            tells_of_pins(points@, component.pins@, on),
            holds == (|p: int|
                on(micro(component.pins@[p].x as int, component.pins@[p].y as int))),
            ints(res@) == positions_where(holds, p as nat),
        decreases pins@.len() - p,
    {
        let ghost before = ints(res@);
        let k = pt_key(pins[p].x, pins[p].y);
        assert(holds(p as int) == on(k));
        assert(pin_node(pins@[p as int]) == k);
        if contains_point(points, k) {
            res.push(p);
            assert(ints(res@) =~= before.push(p as int));
        }
        p += 1;
    }
    res
}

/// The components, other than the one left out, with a pin where `on` holds.
pub(crate) fn components_at_points(
    components: &Vec<PlacedComponent>,
    points: &Vec<(i64, i64)>,
    except: Option<&str>,
    Ghost(on): Ghost<spec_fn((i64, i64)) -> bool>,
) -> (res: Vec<ComponentOnNet>)
    requires
        tells_of_components(points@, components@, on),
    ensures
        lists_components(
            res@,
            components@,
            on,
            components_where(
                components@,
                on,
                match except {
                    Some(text) => Some(text@),
                    None => None,
                },
            ),
        ),
        names_every_pin(
            res@,
            components@,
            on,
            match except {
                Some(text) => Some(text@),
                None => None,
            },
        ),
{
    let ghost left_out = match except {
        Some(text) => Some(text@),
        None => None,
    };
    let ghost holds = |c: int|
        left_out != Some(components@[c].reference@) && pins_where(components@[c], on).len() > 0;
    let mut res: Vec<ComponentOnNet> = Vec::new();
    let mut c: usize = 0;
    while c < components.len()
        invariant
            c <= components@.len(),
            tells_of_components(points@, components@, on),
            left_out == (match except {
                Some(text) => Some(text@),
                None => None,
            }),
            holds == (|c: int|
                left_out != Some(components@[c].reference@) && pins_where(
                    components@[c],
                    on,
                ).len() > 0),
            lists_components(res@, components@, on, positions_where(holds, c as nat)),
        decreases components@.len() - c,
    {
        let component = &components[c];
        let ghost before = res@;
        let ghost rest = positions_where(holds, c as nat);
        let skipped: bool = match except {
            Some(text) => text_eq(component.reference.as_str(), text),
            None => false,
        };
        let pins = pins_at_points(component, points, Ghost(on));
        proof {
            assert(ints(pins@).len() == pins@.len());
            assert(holds(c as int) == (left_out != Some(component.reference@) && pins_where(
                *component,
                on,
            ).len() > 0));
        }
        if !skipped && pins.len() > 0 {
            let ghost own = ints(pins@);
            res.push(ComponentOnNet { component: c, pins });
            proof {
                let now = positions_where(holds, (c + 1) as nat);
                assert(now == rest.push(c as int));
                assert forall|i: int| 0 <= i < res@.len() implies (#[trigger] res@[i]).component
                    == now[i] && ints(res@[i].pins@) == pins_where(
                    components@[now[i]],
                    on,
                ) by {
                    if i < before.len() {
                        assert(res@[i] == before[i]);
                        assert(now[i] == rest[i]);
                    }
                }
            }
        }
        c += 1;
    }
    proof {
        assert(components_where(components@, on, left_out) == positions_where(
            holds,
            components@.len(),
        )) by {
            lemma_same_positions(
                holds,
                |c: int|
                    left_out != Some(components@[c].reference@) && pins_where(
                        components@[c],
                        on,
                    ).len() > 0,
                components@.len(),
            );
        }
        law_every_pin_on_a_net_is_listed(res@, components@, on, left_out);
    }
    res
}

/// The components with a pin on a net of this name.
pub fn get_net_components(
    items: &SheetItems,
    components: &Vec<PlacedComponent>,
    net: &str,
) -> (res: Vec<ComponentOnNet>)
    ensures
        lists_components(
            res@,
            components@,
            |k: (i64, i64)| on_net(*items, net@, k),
            components_where(components@, |k: (i64, i64)| on_net(*items, net@, k), None),
        ),
        names_every_pin(res@, components@, |k: (i64, i64)| on_net(*items, net@, k), None),
{
    let points = points_on_net(items, net);
    let ghost on = |k: (i64, i64)| on_net(*items, net@, k);
    components_at_points(components, &points, None, Ghost(on))
}

/// What a net of a sheet is made of.
#[derive(PartialEq, Eq, Debug)]
pub struct NetConnections {
    pub labels: Vec<usize>,
    pub components: Vec<ComponentOnNet>,
    pub connected_points: usize,
}

/// The labels of a net, the pins on it, component by component, and the number
/// of nodes on it.
pub fn get_net_connections(
    items: &SheetItems,
    components: &Vec<PlacedComponent>,
    net: &str,
) -> (res: NetConnections)
    ensures
        ints(res.labels@) == labels_named(items.labels@, net@),
        forall|l: int|
            0 <= l < items.labels@.len() ==> (ints(res.labels@).contains(l) <==> (
            #[trigger] items.labels@[l]).net@ == net@),
        lists_components(
            res.components@,
            components@,
            |k: (i64, i64)| on_net(*items, net@, k),
            components_where(components@, |k: (i64, i64)| on_net(*items, net@, k), None),
        ),
        names_every_pin(
            res.components@,
            components@,
            |k: (i64, i64)| on_net(*items, net@, k),
            None,
        ),
        exists|list: Seq<(i64, i64)>| #[trigger]
            lists_net(*items, net@, list) && res.connected_points == list.len(),
{
    let points = points_on_net(items, net);
    let labels = find_labels(&items.labels, net);
    let ghost on = |k: (i64, i64)| on_net(*items, net@, k);
    let found = components_at_points(components, &points, None, Ghost(on));
    NetConnections { labels, components: found, connected_points: points.len() }
}

/// What is at a place.
#[derive(PartialEq, Eq, Debug)]
pub struct Trace {
    pub net: Option<String>,
    pub wires: Vec<usize>,
    pub labels: Vec<usize>,
}

/// The wire ends at a place or passes through it.
pub open spec fn wire_here(wire: Wire, x: int, y: int, tol: int) -> bool {
    ||| coincident(x, y, wire.x1 as int, wire.y1 as int, tol)
    ||| coincident(x, y, wire.x2 as int, wire.y2 as int, tol)
    ||| on_wire(wire, x, y, tol)
}

/// The label stands at a place.
pub open spec fn label_here(label: Label, x: int, y: int, tol: int) -> bool {
    coincident(x, y, label.x as int, label.y as int, tol)
}

/// The node is that of a place, of a wire that ends there or passes through it,
/// or of a label that stands there.
pub open spec fn node_here(items: SheetItems, x: int, y: int, tol: int, k: (i64, i64)) -> bool {
    ||| k == micro(x, y)
    ||| exists|i: int|
        0 <= i < items.wires@.len() && wire_here(#[trigger] items.wires@[i], x, y, tol) && k
            == first_node(items.wires@[i])
    ||| exists|i: int|
        0 <= i < items.labels@.len() && label_here(#[trigger] items.labels@[i], x, y, tol) && k
            == micro(items.labels@[i].x as int, items.labels@[i].y as int)
}

/// The name is one of the net that a place belongs to; there is none where no
/// label names it. The place may lie in the middle of a wire.
pub open spec fn names_place(
    items: SheetItems,
    x: int,
    y: int,
    tol: int,
    name: Option<String>,
) -> bool {
    &&& !nameless(items, micro(x, y)) ==> names_net(items, micro(x, y), name)
    &&& match name {
        Some(net) => exists|k: (i64, i64)| #[trigger]
            node_here(items, x, y, tol, k) && on_net(items, net@, k),
        None => forall|k: (i64, i64)| #[trigger]
            node_here(items, x, y, tol, k) ==> nameless(items, k),
    }
}

/// Tells what is at a place and on which net it is.
pub fn trace_from_point(items: &SheetItems, x: i64, y: i64, tol: i64) -> (res: Trace)
    ensures
        names_place(*items, x as int, y as int, tol as int, res.net),
        ints(res.wires@) == positions_where(
            |i: int| wire_here(items.wires@[i], x as int, y as int, tol as int),
            items.wires@.len(),
        ),
        ints(res.labels@) == positions_where(
            |i: int|
                coincident(
                    x as int,
                    y as int,
                    items.labels@[i].x as int,
                    items.labels@[i].y as int,
                    tol as int,
                ),
            items.labels@.len(),
        ),
{
    let net = name_place(items, x, y, tol);
    let wires = &items.wires;
    let ghost here = |i: int| wire_here(items.wires@[i], x as int, y as int, tol as int);
    let mut found: Vec<usize> = Vec::new();
    let mut i: usize = 0;
    assert(ints(found@) =~= positions_where(here, 0));
    while i < wires.len()
        invariant
            i <= wires@.len(),
            wires@ == items.wires@,
            here == (|i: int| wire_here(items.wires@[i], x as int, y as int, tol as int)),
            ints(found@) == positions_where(here, i as nat),
        decreases wires@.len() - i,
    {
        let wire = &wires[i];
        let ghost before = ints(found@);
        assert(here(i as int) == wire_here(*wire, x as int, y as int, tol as int));
        if points_coincident(x, y, wire.x1, wire.y1, tol) || points_coincident(
            x,
            y,
            wire.x2,
            wire.y2,
            tol,
        ) || point_on_wire(wire, x, y, tol) {
            found.push(i);
            assert(ints(found@) =~= before.push(i as int));
        }
        i += 1;
    }
    let labels = &items.labels;
    let ghost near = |i: int|
        coincident(
            x as int,
            y as int,
            items.labels@[i].x as int,
            items.labels@[i].y as int,
            tol as int,
        );
    let mut named: Vec<usize> = Vec::new();
    let mut j: usize = 0;
    assert(ints(named@) =~= positions_where(near, 0));
    while j < labels.len()
        invariant
            j <= labels@.len(),
            labels@ == items.labels@,
            near == (|i: int|
                coincident(
                    x as int,
                    y as int,
                    items.labels@[i].x as int,
                    items.labels@[i].y as int,
                    tol as int,
                )),
            ints(named@) == positions_where(near, j as nat),
        decreases labels@.len() - j,
    {
        let label = &labels[j];
        let ghost before = ints(named@);
        assert(near(j as int) == coincident(
            x as int,
            y as int,
            label.x as int,
            label.y as int,
            tol as int,
        ));
        if points_coincident(x, y, label.x, label.y, tol) {
            named.push(j);
            assert(ints(named@) =~= before.push(j as int));
        }
        j += 1;
    }
    Trace { net, wires: found, labels: named }
}

fn name_place(items: &SheetItems, x: i64, y: i64, tol: i64) -> (res: Option<String>)
    ensures
        names_place(*items, x as int, y as int, tol as int, res),
{
    let mut graph = build_graph(items);
    let ghost own = micro(x as int, y as int);
    let point = find_name(items, &mut graph, x, y);
    if point.is_some() {
        assert(node_here(*items, x as int, y as int, tol as int, own));
        return point;
    }
    let mut i: usize = 0;
    while i < items.wires.len()
        invariant
            i <= items.wires@.len(),
            own == micro(x as int, y as int),
            nameless(*items, own),
            graph_of(*items, graph),
            forall|j: int|
                0 <= j < i && wire_here(
                    #[trigger] items.wires@[j],
                    x as int,
                    y as int,
                    tol as int,
                ) ==> nameless(*items, first_node(items.wires@[j])),
        decreases items.wires@.len() - i,
    {
        let wire = &items.wires[i];
        if points_coincident(x, y, wire.x1, wire.y1, tol) || points_coincident(
            x,
            y,
            wire.x2,
            wire.y2,
            tol,
        ) || point_on_wire(wire, x, y, tol) {
            let name = find_name(items, &mut graph, wire.x1, wire.y1);
            if name.is_some() {
                assert(wire_here(items.wires@[i as int], x as int, y as int, tol as int));
                assert(node_here(
                    *items,
                    x as int,
                    y as int,
                    tol as int,
                    first_node(items.wires@[i as int]),
                ));
                return name;
            }
        }
        i += 1;
    }
    let mut j: usize = 0;
    while j < items.labels.len()
        invariant
            j <= items.labels@.len(),
            own == micro(x as int, y as int),
            nameless(*items, own),
            graph_of(*items, graph),
            forall|m: int|
                0 <= m < items.wires@.len() && wire_here(
                    #[trigger] items.wires@[m],
                    x as int,
                    y as int,
                    tol as int,
                ) ==> nameless(*items, first_node(items.wires@[m])),
            forall|m: int|
                0 <= m < j && label_here(
                    #[trigger] items.labels@[m],
                    x as int,
                    y as int,
                    tol as int,
                ) ==> nameless(
                    *items,
                    micro(items.labels@[m].x as int, items.labels@[m].y as int),
                ),
        decreases items.labels@.len() - j,
    {
        let label = &items.labels[j];
        if points_coincident(x, y, label.x, label.y, tol) {
            let name = find_name(items, &mut graph, label.x, label.y);
            if name.is_some() {
                assert(label_here(items.labels@[j as int], x as int, y as int, tol as int));
                assert(node_here(
                    *items,
                    x as int,
                    y as int,
                    tol as int,
                    micro(label.x as int, label.y as int),
                ));
                return name;
            }
        }
        j += 1;
    }
    None
}

/// A place that a named wire ends at or passes through has a name.
pub proof fn law_a_place_on_a_named_wire_is_named(
    items: SheetItems,
    i: int,
    x: int,
    y: int,
    tol: int,
    name: Option<String>,
)
    requires
        0 <= i < items.wires@.len(),
        wire_here(items.wires@[i], x, y, tol),
        !nameless(items, first_node(items.wires@[i])),
        names_place(items, x, y, tol, name),
    ensures
        name is Some,
{
    assert(node_here(items, x, y, tol, first_node(items.wires@[i])));
}

} // verus!
