//! One shared answer to what is attached at a place of a sheet.
//!
//! The index holds every item that can terminate a point, under a single
//! tolerance. Coincidence is the wider notion of the two here: a point is
//! coincident within the tolerance, while the net graph joins nodes on exact
//! places and through the wires that labels and junctions lie on. A wire that
//! ends a little off a sheet pin is terminated, yet does not reach the net of
//! that pin.

use crate::geometry::{
    micro, on_interior, on_wire, point_on_wire, pt_key, Label, LabelKind, Wire,
    COINCIDENT_TOLERANCE,
};
use crate::links::{lemma_models_nothing, lemma_models_one_more, lemma_models_same, models};
use crate::net_graph::{gains_label, lemma_labels_chain, lemma_same_nets_chain, NetGraph};
use crate::point_index::{count_near, PointIndex};
use crate::text::clone_opt;
use crate::wire_index::{lists_hits, WireIndex};
use vstd::prelude::*;
use vstd::string::*;

verus! {

/// A pin as a library symbol describes it.
#[derive(PartialEq, Eq, Debug)]
pub struct LibPin {
    pub number: String,
    pub name: String,
    pub electrical_type: String,
}

/// A pin on the sheet, with the reference and the value of the component that
/// owns it.
#[derive(PartialEq, Eq, Debug)]
pub struct PlacedPin {
    pub reference: String,
    pub value: String,
    pub pin: LibPin,
    pub x: i64,
    pub y: i64,
}

/// Everything on a sheet that connectivity depends on.
#[derive(PartialEq, Eq, Debug)]
pub struct SheetItems {
    pub wires: Vec<Wire>,
    pub labels: Vec<Label>,
    pub junctions: Vec<(i64, i64)>,
    pub sheet_pins: Vec<(i64, i64)>,
    pub no_connects: Vec<(i64, i64)>,
    pub placed_pins: Vec<PlacedPin>,
}

/// The node of a place.
pub open spec fn node_at(place: (i64, i64)) -> (i64, i64) {
    micro(place.0 as int, place.1 as int)
}

/// The node of the first end of a wire.
pub open spec fn first_node(wire: Wire) -> (i64, i64) {
    micro(wire.x1 as int, wire.y1 as int)
}

/// The node of the second end of a wire.
pub open spec fn second_node(wire: Wire) -> (i64, i64) {
    micro(wire.x2 as int, wire.y2 as int)
}

/// The places of labels.
pub open spec fn label_places(labels: Seq<Label>) -> Seq<(i64, i64)> {
    Seq::new(labels.len(), |i: int| (labels[i].x, labels[i].y))
}

/// The link is between the ends of one of the first `n` wires.
pub open spec fn is_wire_link(
    wires: Seq<Wire>,
    n: int,
    link: ((i64, i64), (i64, i64)),
) -> bool {
    exists|i: int|
        0 <= i < n && link == (first_node(#[trigger] wires[i]), second_node(wires[i]))
}

/// The link is between one of the first `n` places and a wire that it lies on.
pub open spec fn is_attachment(
    places: Seq<(i64, i64)>,
    wires: Seq<Wire>,
    tol: int,
    n: int,
    link: ((i64, i64), (i64, i64)),
) -> bool {
    exists|i: int, w: int|
        0 <= i < n && 0 <= w < wires.len() && on_wire(
            #[trigger] wires[w],
            (#[trigger] places[i]).0 as int,
            places[i].1 as int,
            tol,
        ) && link == (node_at(places[i]), first_node(wires[w]))
}

/// The links of a sheet: a wire joins its ends, and a label or a junction is
/// joined to every wire that it lies on. A sheet pin joins nothing by itself.
pub open spec fn sheet_links(
    wires: Seq<Wire>,
    labels: Seq<(i64, i64)>,
    junctions: Seq<(i64, i64)>,
    tol: int,
) -> Set<((i64, i64), (i64, i64))> {
    Set::new(
        |link: ((i64, i64), (i64, i64))|
            is_wire_link(wires, wires.len() as int, link) || is_attachment(
                labels,
                wires,
                tol,
                labels.len() as int,
                link,
            ) || is_attachment(junctions, wires, tol, junctions.len() as int, link),
    )
}

/// The name that the last of these labels at a node gives it.
pub open spec fn label_name(labels: Seq<Label>, k: (i64, i64)) -> Option<Seq<char>>
    decreases labels.len(),
{
    if labels.len() == 0 {
        None
    } else if micro(labels.last().x as int, labels.last().y as int) == k {
        Some(labels.last().net@)
    } else {
        label_name(labels.drop_last(), k)
    }
}

/// The names of the graph are those of these labels.
pub open spec fn names_nodes(graph: NetGraph, labels: Seq<Label>) -> bool {
    &&& forall|k: (i64, i64)| #[trigger] graph.labelled(k) <==> label_name(labels, k) is Some
    &&& forall|k: (i64, i64)|
        #![trigger graph.name(k)]
        graph.labelled(k) ==> label_name(labels, k) == Some(graph.name(k))
}

/// One of these places has this node.
pub open spec fn some_place(places: Seq<(i64, i64)>, k: (i64, i64)) -> bool {
    exists|i: int| 0 <= i < places.len() && node_at(#[trigger] places[i]) == k
}

/// One of these wires has an end at this node.
pub open spec fn some_end(wires: Seq<Wire>, k: (i64, i64)) -> bool {
    exists|i: int|
        0 <= i < wires.len() && (first_node(#[trigger] wires[i]) == k || second_node(wires[i])
            == k)
}

/// The graph is the net graph of a sheet.
pub open spec fn is_sheet_graph(
    graph: NetGraph,
    wires: Seq<Wire>,
    labels: Seq<Label>,
    junctions: Seq<(i64, i64)>,
    sheet_pins: Seq<(i64, i64)>,
    tol: int,
) -> bool {
    &&& models(graph, sheet_links(wires, label_places(labels), junctions, tol))
    &&& names_nodes(graph, labels)
    &&& forall|k: (i64, i64)| #[trigger]
        graph.has(k) <==> (some_end(wires, k) || some_place(label_places(labels), k) || some_place(
            junctions,
            k,
        ) || some_place(sheet_pins, k))
}

/// Nodes that the graph may have.
spec fn nodes_are(
    graph: NetGraph,
    ends: Seq<Wire>,
    labels: Seq<(i64, i64)>,
    junctions: Seq<(i64, i64)>,
    sheet_pins: Seq<(i64, i64)>,
) -> bool {
    forall|k: (i64, i64)| #[trigger]
        graph.has(k) <==> (some_end(ends, k) || some_place(labels, k) || some_place(junctions, k)
            || some_place(sheet_pins, k))
}

proof fn lemma_some_place_push(places: Seq<(i64, i64)>, n: int, k: (i64, i64))
    requires
        0 <= n < places.len(),
    ensures
        some_place(places.take(n + 1), k) == (some_place(places.take(n), k) || node_at(places[n])
            == k),
{
    let (a, b) = (places.take(n), places.take(n + 1));
    if some_place(a, k) {
        let i = choose|i: int| 0 <= i < a.len() && node_at(#[trigger] a[i]) == k;
        assert(b[i] == a[i]);
    }
    if some_place(b, k) {
        let i = choose|i: int| 0 <= i < b.len() && node_at(#[trigger] b[i]) == k;
        if i < n {
            assert(a[i] == b[i]);
        }
    }
    assert(b[n] == places[n]);
}

proof fn lemma_some_end_push(wires: Seq<Wire>, n: int, k: (i64, i64))
    requires
        0 <= n < wires.len(),
    ensures
        some_end(wires.take(n + 1), k) == (some_end(wires.take(n), k) || first_node(wires[n]) == k
            || second_node(wires[n]) == k),
{
    let (a, b) = (wires.take(n), wires.take(n + 1));
    if some_end(a, k) {
        let i = choose|i: int|
            0 <= i < a.len() && (first_node(#[trigger] a[i]) == k || second_node(a[i]) == k);
        assert(b[i] == a[i]);
    }
    if some_end(b, k) {
        let i = choose|i: int|
            0 <= i < b.len() && (first_node(#[trigger] b[i]) == k || second_node(b[i]) == k);
        if i < n {
            assert(a[i] == b[i]);
        }
    }
    assert(b[n] == wires[n]);
}

/// The links of the first wires.
spec fn wire_links(wires: Seq<Wire>, n: int) -> Set<((i64, i64), (i64, i64))> {
    Set::new(|link: ((i64, i64), (i64, i64))| is_wire_link(wires, n, link))
}

/// The links of the first places.
spec fn attachments(places: Seq<(i64, i64)>, wires: Seq<Wire>, tol: int, n: int) -> Set<
    ((i64, i64), (i64, i64)),
> {
    Set::new(|link: ((i64, i64), (i64, i64))| is_attachment(places, wires, tol, n, link))
}

/// The links of one place to the first `m` of the wires that it lies on.
spec fn hit_links(place: (i64, i64), wires: Seq<Wire>, hits: Seq<usize>, m: int) -> Set<
    ((i64, i64), (i64, i64)),
> {
    Set::new(
        |link: ((i64, i64), (i64, i64))|
            exists|j: int|
                0 <= j < m && link == (node_at(place), first_node(
                    wires[#[trigger] hits[j] as int],
                )),
    )
}

proof fn lemma_wire_links_push(wires: Seq<Wire>, n: int)
    requires
        0 <= n < wires.len(),
    ensures
        wire_links(wires, n + 1) == wire_links(wires, n).insert(
            (first_node(wires[n]), second_node(wires[n])),
        ),
{
    let (a, b) = (wire_links(wires, n), wire_links(wires, n + 1));
    let extra = (first_node(wires[n]), second_node(wires[n]));
    assert forall|link: ((i64, i64), (i64, i64))| b.contains(link) <==> a.insert(extra).contains(
        link,
    ) by {
        if is_wire_link(wires, n, link) {
            let i = choose|i: int|
                0 <= i < n && link == (first_node(#[trigger] wires[i]), second_node(wires[i]));
            assert(link == (first_node(wires[i]), second_node(wires[i])));
        }
    }
    assert(b =~= a.insert(extra));
}

proof fn lemma_hit_links_push(place: (i64, i64), wires: Seq<Wire>, hits: Seq<usize>, m: int)
    requires
        0 <= m < hits.len(),
    ensures
        hit_links(place, wires, hits, m + 1) == hit_links(place, wires, hits, m).insert(
            (node_at(place), first_node(wires[hits[m] as int])),
        ),
{
    let (a, b) = (hit_links(place, wires, hits, m), hit_links(place, wires, hits, m + 1));
    let extra = (node_at(place), first_node(wires[hits[m] as int]));
    assert forall|link: ((i64, i64), (i64, i64))| b.contains(link) <==> a.insert(extra).contains(
        link,
    ) by {
        if a.contains(link) {
            let j = choose|j: int|
                0 <= j < m && link == (node_at(place), first_node(
                    wires[#[trigger] hits[j] as int],
                ));
            assert(link == (node_at(place), first_node(wires[hits[j] as int])));
        }
        if link == extra {
            assert(link == (node_at(place), first_node(wires[hits[m] as int])));
        }
    }
    assert(b =~= a.insert(extra));
}

proof fn lemma_attachments_push(
    places: Seq<(i64, i64)>,
    wires: Seq<Wire>,
    tol: int,
    n: int,
    hits: Seq<usize>,
)
    requires
        0 <= n < places.len(),
        wires.len() <= usize::MAX,
        lists_hits(hits, wires, places[n].0 as int, places[n].1 as int, tol),
    ensures
        attachments(places, wires, tol, n + 1) == attachments(places, wires, tol, n).union(
            hit_links(places[n], wires, hits, hits.len() as int),
        ),
{
    let (a, b) = (attachments(places, wires, tol, n), attachments(places, wires, tol, n + 1));
    let own = hit_links(places[n], wires, hits, hits.len() as int);
    assert forall|link: ((i64, i64), (i64, i64))| b.contains(link) <==> a.union(own).contains(
        link,
    ) by {
        if b.contains(link) {
            let (i, w) = choose|i: int, w: int|
                0 <= i < n + 1 && 0 <= w < wires.len() && on_wire(
                    #[trigger] wires[w],
                    (#[trigger] places[i]).0 as int,
                    places[i].1 as int,
                    tol,
                ) && link == (node_at(places[i]), first_node(wires[w]));
            if i == n {
                assert(hits.contains(w as usize));
                let j = hits.index_of(w as usize);
                assert(hits[j] == w as usize);
                assert(link == (node_at(places[n]), first_node(wires[hits[j] as int])));
            } else {
                assert(is_attachment(places, wires, tol, n, link));
            }
        }
        if own.contains(link) {
            let j = choose|j: int|
                0 <= j < hits.len() && link == (node_at(places[n]), first_node(
                    wires[#[trigger] hits[j] as int],
                ));
            assert(hits.contains(hits[j]));
            assert(on_wire(
                wires[hits[j] as int],
                places[n].0 as int,
                places[n].1 as int,
                tol,
            ));
        }
        if a.contains(link) {
            let (i, w) = choose|i: int, w: int|
                0 <= i < n && 0 <= w < wires.len() && on_wire(
                    #[trigger] wires[w],
                    (#[trigger] places[i]).0 as int,
                    places[i].1 as int,
                    tol,
                ) && link == (node_at(places[i]), first_node(wires[w]));
            assert(on_wire(wires[w], places[i].0 as int, places[i].1 as int, tol));
        }
    }
    assert(b =~= a.union(own));
}

/// Joins a place to every wire that it lies on.
fn attach(
    graph: &mut NetGraph,
    on_wire_index: &WireIndex,
    wires: &Vec<Wire>,
    x: i64,
    y: i64,
    Ghost(links): Ghost<Set<((i64, i64), (i64, i64))>>,
    Ghost(places): Ghost<Seq<(i64, i64)>>,
    Ghost(n): Ghost<int>,
)
    requires
        old(graph).valid(),
        on_wire_index.indexed() == wires@,
        0 <= n < places.len(),
        places[n] == (x, y),
        models(*old(graph), links),
        old(graph).has(node_at((x, y))),
        forall|i: int|
            0 <= i < wires@.len() ==> old(graph).has(first_node(#[trigger] wires@[i])),
        attachments(places, wires@, on_wire_index.tolerance_spec(), n).subset_of(links),
    ensures
        final(graph).valid(),
        models(
            *final(graph),
            links.union(
                attachments(places, wires@, on_wire_index.tolerance_spec(), n + 1),
            ),
        ),
        final(graph).same_labels(*old(graph)),
        forall|k: (i64, i64)| #[trigger] final(graph).has(k) == old(graph).has(k),
{
    let ghost start = *graph;
    let hits = on_wire_index.hits(x, y);
    let ghost tol = on_wire_index.tolerance_spec();
    let count: usize = wires.len();
    let mut j: usize = 0;
    proof {
        let none = hit_links((x, y), wires@, hits@, 0);
        assert(links.union(none) =~= links);
    }
    while j < hits.len()
        invariant
            j <= hits@.len(),
            graph.valid(),
            lists_hits(hits@, wires@, x as int, y as int, tol),
            start == *old(graph),
            start.has(node_at((x, y))),
            forall|i: int|
                0 <= i < wires@.len() ==> start.has(first_node(#[trigger] wires@[i])),
            models(*graph, links.union(hit_links((x, y), wires@, hits@, j as int))),
            graph.same_labels(start),
            forall|k: (i64, i64)| #[trigger] graph.has(k) == start.has(k),
        decreases hits@.len() - j,
    {
        let wire = &wires[hits[j]];
        let ghost before = *graph;
        let ghost known = links.union(hit_links((x, y), wires@, hits@, j as int));
        let place = pt_key(x, y);
        let end = pt_key(wire.x1, wire.y1);
        graph.union(place, end);
        proof {
            lemma_models_one_more(before, *graph, known, place, end);
            lemma_hit_links_push((x, y), wires@, hits@, j as int);
            assert(known.insert((place, end)) =~= links.union(
                hit_links((x, y), wires@, hits@, j + 1),
            ));
            assert forall|k: (i64, i64)| #[trigger] graph.has(k) == start.has(k) by {
                assert(graph.has(k) <==> (before.has(k) || k == place || k == end));
                assert(before.has(k) == start.has(k));
                assert(start.has(first_node(wires@[hits@[j as int] as int])));
            }
            lemma_labels_chain(start, before, *graph);
        }
        j += 1;
    }
    proof {
        lemma_attachments_push(places, wires@, tol, n, hits@);
        assert(links.union(hit_links((x, y), wires@, hits@, hits@.len() as int)) =~= links.union(
            attachments(places, wires@, tol, n + 1),
        ));
    }
}

proof fn lemma_names_kept(before: NetGraph, after: NetGraph, labels: Seq<Label>)
    requires
        names_nodes(before, labels),
        after.same_labels(before),
    ensures
        names_nodes(after, labels),
{
    assert forall|k: (i64, i64)| #[trigger] after.labelled(k) <==> label_name(
        labels,
        k,
    ) is Some by {
        assert(after.labelled(k) == before.labelled(k));
    }
    assert forall|k: (i64, i64)| #![trigger after.name(k)] after.labelled(k) implies label_name(
        labels,
        k,
    ) == Some(after.name(k)) by {
        assert(after.labelled(k) == before.labelled(k));
        assert(after.name(k) == before.name(k));
    }
}

proof fn lemma_names_push(before: NetGraph, after: NetGraph, labels: Seq<Label>, n: int)
    requires
        0 <= n < labels.len(),
        names_nodes(before, labels.take(n)),
        gains_label(
            before,
            after,
            micro(labels[n].x as int, labels[n].y as int),
            labels[n].net@,
        ),
    ensures
        names_nodes(after, labels.take(n + 1)),
{
    let own = micro(labels[n].x as int, labels[n].y as int);
    let (a, b) = (labels.take(n), labels.take(n + 1));
    assert(b.drop_last() =~= a);
    assert(b.last() == labels[n]);
    assert forall|k: (i64, i64)| #[trigger] after.labelled(k) <==> label_name(b, k) is Some by {
        assert(after.labelled(k) <==> (before.labelled(k) || k == own));
        assert(before.labelled(k) <==> label_name(a, k) is Some);
    }
    assert forall|k: (i64, i64)| #![trigger after.name(k)] after.labelled(k) implies label_name(
        b,
        k,
    ) == Some(after.name(k)) by {
        assert(after.labelled(k) <==> (before.labelled(k) || k == own));
        if k != own {
            assert(before.labelled(k));
            assert(label_name(a, k) == Some(before.name(k)));
        }
    }
}

fn add_wires(graph: &mut NetGraph, wires: &Vec<Wire>)
    requires
        old(graph).valid(),
        old(graph).keys().len() == 0,
        forall|k: (i64, i64)| #[trigger] old(graph).root(k) == k,
        forall|k: (i64, i64)| !#[trigger] old(graph).labelled(k),
    ensures
        final(graph).valid(),
        models(*final(graph), wire_links(wires@, wires@.len() as int)),
        forall|k: (i64, i64)| !#[trigger] final(graph).labelled(k),
        forall|k: (i64, i64)| #[trigger] final(graph).has(k) <==> some_end(wires@, k),
{
    let mut i: usize = 0;
    proof {
        lemma_models_nothing(*graph);
        assert(wire_links(wires@, 0) =~= Set::empty());
    }
    while i < wires.len()
        invariant
            i <= wires@.len(),
            graph.valid(),
            models(*graph, wire_links(wires@, i as int)),
            forall|k: (i64, i64)| !#[trigger] graph.labelled(k),
            forall|k: (i64, i64)| #[trigger]
                graph.has(k) <==> some_end(wires@.take(i as int), k),
        decreases wires@.len() - i,
    {
        let ghost before = *graph;
        graph.add_wire(&wires[i]);
        proof {
            let wire = wires@[i as int];
            lemma_models_one_more(
                before,
                *graph,
                wire_links(wires@, i as int),
                first_node(wire),
                second_node(wire),
            );
            lemma_wire_links_push(wires@, i as int);
            assert forall|k: (i64, i64)| !#[trigger] graph.labelled(k) by {
                assert(graph.labelled(k) == before.labelled(k));
            }
            assert forall|k: (i64, i64)| #[trigger]
                graph.has(k) <==> some_end(wires@.take(i + 1), k) by {
                lemma_some_end_push(wires@, i as int, k);
                assert(before.has(k) <==> some_end(wires@.take(i as int), k));
            }
        }
        i += 1;
    }
    assert(wires@.take(i as int) =~= wires@);
}

/// Builds the net graph of a sheet.
///
/// Labels and junction dots connect anywhere along a wire, so each is joined
/// to every wire that it lies on. Sheet pins are registered and nothing more:
/// a wire that merely passes through the place of one is not joined to it.
pub fn seed_net_graph(
    wires: &Vec<Wire>,
    labels: &Vec<Label>,
    junctions: &Vec<(i64, i64)>,
    sheet_pins: &Vec<(i64, i64)>,
    on_wire_index: &WireIndex,
) -> (res: NetGraph)
    requires
        on_wire_index.indexed() == wires@,
    ensures
        res.valid(),
        is_sheet_graph(
            res,
            wires@,
            labels@,
            junctions@,
            sheet_pins@,
            on_wire_index.tolerance_spec(),
        ),
{
    let mut graph = NetGraph::new();
    let ghost tol = on_wire_index.tolerance_spec();
    let ghost none = Seq::<(i64, i64)>::empty();
    let ghost spots = label_places(labels@);
    add_wires(&mut graph, wires);
    let ghost base = wire_links(wires@, wires@.len() as int);
    let mut i: usize = 0;
    proof {
        assert(base.union(attachments(spots, wires@, tol, 0)) =~= base);
        assert(labels@.take(0) =~= Seq::empty());
        assert(spots.take(0) =~= Seq::empty());
        assert(names_nodes(graph, labels@.take(0)));
        assert(nodes_are(graph, wires@, spots.take(0), none, none));
    }
    while i < labels.len()
        invariant
            i <= labels@.len(),
            graph.valid(),
            on_wire_index.indexed() == wires@,
            tol == on_wire_index.tolerance_spec(),
            spots == label_places(labels@),
            none == Seq::<(i64, i64)>::empty(),
            models(graph, base.union(attachments(spots, wires@, tol, i as int))),
            names_nodes(graph, labels@.take(i as int)),
            nodes_are(graph, wires@, spots.take(i as int), none, none),
        decreases labels@.len() - i,
    {
        let label = &labels[i];
        let ghost before = graph;
        let ghost known = base.union(attachments(spots, wires@, tol, i as int));
        graph.add_label(label.x, label.y, label.net.as_str());
        let ghost named = graph;
        proof {
            lemma_models_same(before, named, known);
            lemma_names_push(before, named, labels@, i as int);
            assert forall|k: (i64, i64)| #[trigger]
                named.has(k) <==> (some_end(wires@, k) || some_place(spots.take(i + 1), k)
                    || some_place(none, k) || some_place(none, k)) by {
                assert(before.has(k) <==> (some_end(wires@, k) || some_place(
                    spots.take(i as int),
                    k,
                ) || some_place(none, k) || some_place(none, k)));
                lemma_some_place_push(spots, i as int, k);
            }
            assert(spots[i as int] == (label.x, label.y));
            assert forall|w: int| 0 <= w < wires@.len() implies named.has(
                first_node(#[trigger] wires@[w]),
            ) by {
                assert(some_end(wires@, first_node(wires@[w])));
            }
            assert(named.has(node_at((label.x, label.y))));
        }
        attach(
            &mut graph,
            on_wire_index,
            wires,
            label.x,
            label.y,
            Ghost(known),
            Ghost(spots),
            Ghost(i as int),
        );
        proof {
            lemma_names_kept(named, graph, labels@.take(i + 1));
            lemma_attachments_grow(spots, wires@, tol, i as int);
            assert(known.union(attachments(spots, wires@, tol, i + 1)) =~= base.union(
                attachments(spots, wires@, tol, i + 1),
            ));
            assert(nodes_are(graph, wires@, spots.take(i + 1), none, none)) by {
                assert forall|k: (i64, i64)| #[trigger]
                    graph.has(k) <==> (some_end(wires@, k) || some_place(spots.take(i + 1), k)
                        || some_place(none, k) || some_place(none, k)) by {
                    assert(graph.has(k) == named.has(k));
                }
            }
        }
        i += 1;
    }
    let ghost with_labels = base.union(attachments(spots, wires@, tol, spots.len() as int));
    proof {
        assert(labels@.take(i as int) =~= labels@);
        assert(spots.take(i as int) =~= spots);
        assert(with_labels.union(attachments(junctions@, wires@, tol, 0)) =~= with_labels);
        assert(junctions@.take(0) =~= none);
    }
    let mut j: usize = 0;
    while j < junctions.len()
        invariant
            j <= junctions@.len(),
            graph.valid(),
            on_wire_index.indexed() == wires@,
            tol == on_wire_index.tolerance_spec(),
            none == Seq::<(i64, i64)>::empty(),
            models(graph, with_labels.union(attachments(junctions@, wires@, tol, j as int))),
            names_nodes(graph, labels@),
            nodes_are(graph, wires@, spots, junctions@.take(j as int), none),
        decreases junctions@.len() - j,
    {
        let (x, y) = junctions[j];
        let ghost before = graph;
        let ghost known = with_labels.union(attachments(junctions@, wires@, tol, j as int));
        graph.ensure(pt_key(x, y));
        let ghost placed = graph;
        proof {
            lemma_models_same(before, placed, known);
            lemma_names_kept(before, placed, labels@);
            assert forall|k: (i64, i64)| #[trigger]
                placed.has(k) <==> (some_end(wires@, k) || some_place(spots, k) || some_place(
                    junctions@.take(j + 1),
                    k,
                ) || some_place(none, k)) by {
                assert(before.has(k) <==> (some_end(wires@, k) || some_place(spots, k)
                    || some_place(junctions@.take(j as int), k) || some_place(none, k)));
                lemma_some_place_push(junctions@, j as int, k);
            }
            assert forall|w: int| 0 <= w < wires@.len() implies placed.has(
                first_node(#[trigger] wires@[w]),
            ) by {
                assert(some_end(wires@, first_node(wires@[w])));
            }
            assert(placed.has(node_at((x, y))));
        }
        attach(
            &mut graph,
            on_wire_index,
            wires,
            x,
            y,
            Ghost(known),
            Ghost(junctions@),
            Ghost(j as int),
        );
        proof {
            lemma_names_kept(placed, graph, labels@);
            lemma_attachments_grow(junctions@, wires@, tol, j as int);
            assert(known.union(attachments(junctions@, wires@, tol, j + 1)) =~= with_labels.union(
                attachments(junctions@, wires@, tol, j + 1),
            ));
            assert(nodes_are(graph, wires@, spots, junctions@.take(j + 1), none)) by {
                assert forall|k: (i64, i64)| #[trigger]
                    graph.has(k) <==> (some_end(wires@, k) || some_place(spots, k) || some_place(
                        junctions@.take(j + 1),
                        k,
                    ) || some_place(none, k)) by {
                    assert(graph.has(k) == placed.has(k));
                }
            }
        }
        j += 1;
    }
    let ghost all = with_labels.union(
        attachments(junctions@, wires@, tol, junctions@.len() as int),
    );
    proof {
        assert(junctions@.take(j as int) =~= junctions@);
        assert(all =~= sheet_links(wires@, spots, junctions@, tol));
        assert(sheet_pins@.take(0) =~= none);
    }
    let mut p: usize = 0;
    while p < sheet_pins.len()
        invariant
            p <= sheet_pins@.len(),
            graph.valid(),
            models(graph, all),
            names_nodes(graph, labels@),
            nodes_are(graph, wires@, spots, junctions@, sheet_pins@.take(p as int)),
        decreases sheet_pins@.len() - p,
    {
        let (x, y) = sheet_pins[p];
        let ghost before = graph;
        graph.ensure(pt_key(x, y));
        proof {
            lemma_models_same(before, graph, all);
            lemma_names_kept(before, graph, labels@);
            assert forall|k: (i64, i64)| #[trigger]
                graph.has(k) <==> (some_end(wires@, k) || some_place(spots, k) || some_place(
                    junctions@,
                    k,
                ) || some_place(sheet_pins@.take(p + 1), k)) by {
                assert(before.has(k) <==> (some_end(wires@, k) || some_place(spots, k)
                    || some_place(junctions@, k) || some_place(sheet_pins@.take(p as int), k)));
                lemma_some_place_push(sheet_pins@, p as int, k);
            }
        }
        p += 1;
    }
    assert(sheet_pins@.take(p as int) =~= sheet_pins@);
    graph
}

proof fn lemma_attachments_grow(places: Seq<(i64, i64)>, wires: Seq<Wire>, tol: int, n: int)
    requires
        0 <= n < places.len(),
    ensures
        attachments(places, wires, tol, n).subset_of(attachments(places, wires, tol, n + 1)),
{
    let (a, b) = (attachments(places, wires, tol, n), attachments(places, wires, tol, n + 1));
    assert forall|link: ((i64, i64), (i64, i64))| a.contains(link) implies b.contains(link) by {
        let (i, w) = choose|i: int, w: int|
            0 <= i < n && 0 <= w < wires.len() && on_wire(
                #[trigger] wires[w],
                (#[trigger] places[i]).0 as int,
                places[i].1 as int,
                tol,
            ) && link == (node_at(places[i]), first_node(wires[w]));
        assert(on_wire(wires[w], places[i].0 as int, places[i].1 as int, tol));
    }
}

/// The net graph of a whole sheet, at the usual tolerance. The labels are those
/// of every sort: a power symbol names a net too.
pub fn net_graph_for(items: &SheetItems) -> (res: NetGraph)
    ensures
        res.valid(),
        is_sheet_graph(
            res,
            items.wires@,
            items.labels@,
            items.junctions@,
            items.sheet_pins@,
            COINCIDENT_TOLERANCE as int,
        ),
{
    let index = WireIndex::build(&items.wires, COINCIDENT_TOLERANCE);
    seed_net_graph(&items.wires, &items.labels, &items.junctions, &items.sheet_pins, &index)
}

/// The root that each label sits on.
pub fn label_roots(graph: &mut NetGraph, labels: &Vec<Label>) -> (res: Vec<(i64, i64)>)
    ensures
        final(graph).valid(),
        final(graph).same_nets(*old(graph)),
        res@.len() == labels@.len(),
        forall|i: int|
            0 <= i < labels@.len() ==> #[trigger] res@[i] == old(graph).root(
                micro(labels@[i].x as int, labels@[i].y as int),
            ),
{
    proof {
        use_type_invariant(&*graph);
    }
    let mut res: Vec<(i64, i64)> = Vec::new();
    let mut i: usize = 0;
    while i < labels.len()
        invariant
            i <= labels@.len(),
            res@.len() == i,
            graph.valid(),
            graph.same_nets(*old(graph)),
            forall|j: int|
                0 <= j < i ==> #[trigger] res@[j] == old(graph).root(
                    micro(labels@[j].x as int, labels@[j].y as int),
                ),
        decreases labels@.len() - i,
    {
        let ghost before = *graph;
        let root = graph.find(pt_key(labels[i].x, labels[i].y));
        proof {
            let k = micro(labels@[i as int].x as int, labels@[i as int].y as int);
            assert(before.root(k) == old(graph).root(k));
            lemma_same_nets_chain(*old(graph), before, *graph);
        }
        res.push(root);
        i += 1;
    }
    res
}

/// Both ends of each wire.
pub open spec fn wire_ends(wires: Seq<Wire>) -> Seq<(i64, i64)>
    decreases wires.len(),
{
    if wires.len() == 0 {
        Seq::empty()
    } else {
        wire_ends(wires.drop_last()).push((wires.last().x1, wires.last().y1)).push(
            (wires.last().x2, wires.last().y2),
        )
    }
}

/// The places of the labels that are no power symbols. A power symbol's name
/// sits on its own pin, which would then seem attached to itself.
pub open spec fn drawn_labels(labels: Seq<Label>) -> Seq<(i64, i64)>
    decreases labels.len(),
{
    if labels.len() == 0 {
        Seq::empty()
    } else if labels.last().kind != LabelKind::PowerSymbol {
        drawn_labels(labels.drop_last()).push((labels.last().x, labels.last().y))
    } else {
        drawn_labels(labels.drop_last())
    }
}

/// The places of pins.
pub open spec fn pin_places(pins: Seq<PlacedPin>) -> Seq<(i64, i64)> {
    Seq::new(pins.len(), |i: int| (pins[i].x, pins[i].y))
}

/// Some of the places coincides with this one.
pub open spec fn near(places: Seq<(i64, i64)>, x: int, y: int, tol: int) -> bool {
    count_near(places, x, y, tol) > 0
}

/// The place lies on a wire.
pub open spec fn on_some_wire(wires: Seq<Wire>, x: int, y: int, tol: int) -> bool {
    exists|w: int| 0 <= w < wires.len() && on_wire(#[trigger] wires[w], x, y, tol)
}

/// The place lies on the interior of a wire.
pub open spec fn on_some_interior(wires: Seq<Wire>, x: int, y: int, tol: int) -> bool {
    exists|w: int| 0 <= w < wires.len() && on_interior(#[trigger] wires[w], x, y, tol)
}

/// How many of the wires the place lies on.
pub open spec fn wires_through(wires: Seq<Wire>, x: int, y: int, tol: int) -> nat
    decreases wires.len(),
{
    if wires.len() == 0 {
        0
    } else {
        wires_through(wires.drop_last(), x, y, tol) + if on_wire(wires.last(), x, y, tol) {
            1nat
        } else {
            0
        }
    }
}

/// A wire end here is terminated: by a pin, a label, a sheet pin, a junction, a
/// no-connect flag, the end of another wire, or the interior of a wire.
pub open spec fn terminated(items: SheetItems, x: int, y: int, tol: int) -> bool {
    ||| near(pin_places(items.placed_pins@), x, y, tol)
    ||| near(drawn_labels(items.labels@), x, y, tol)
    ||| near(items.sheet_pins@, x, y, tol)
    ||| near(items.junctions@, x, y, tol)
    ||| near(items.no_connects@, x, y, tol)
    ||| count_near(wire_ends(items.wires@), x, y, tol) >= 2
    ||| on_some_interior(items.wires@, x, y, tol)
}

/// A pin here is attached: by a wire that ends on it, a label, a sheet pin,
/// another pin, or a junction dot where it lies on a wire.
pub open spec fn attached(items: SheetItems, x: int, y: int, tol: int) -> bool {
    ||| near(wire_ends(items.wires@), x, y, tol)
    ||| near(drawn_labels(items.labels@), x, y, tol)
    ||| near(items.sheet_pins@, x, y, tol)
    ||| count_near(pin_places(items.placed_pins@), x, y, tol) >= 2
    ||| near(items.junctions@, x, y, tol) && on_some_wire(items.wires@, x, y, tol)
}

/// Every item of a sheet that can terminate a point, under one tolerance.
pub struct ConnectivityIndex<'a> {
    items: &'a SheetItems,
    on_wire: WireIndex<'a>,
    wire_ends: PointIndex,
    label_points: PointIndex,
    pin_points: PointIndex,
    sheet_pin_points: PointIndex,
    junction_points: PointIndex,
    no_connect_points: PointIndex,
}

fn list_wire_ends(wires: &Vec<Wire>) -> (res: Vec<(i64, i64)>)
    ensures
        res@ == wire_ends(wires@),
{
    let mut res: Vec<(i64, i64)> = Vec::new();
    let mut i: usize = 0;
    assert(wires@.take(0) =~= Seq::empty());
    while i < wires.len()
        invariant
            i <= wires@.len(),
            res@ == wire_ends(wires@.take(i as int)),
        decreases wires@.len() - i,
    {
        assert(wires@.take(i + 1).drop_last() =~= wires@.take(i as int));
        assert(wires@.take(i + 1).last() == wires@[i as int]);
        res.push((wires[i].x1, wires[i].y1));
        res.push((wires[i].x2, wires[i].y2));
        i += 1;
    }
    assert(wires@.take(i as int) =~= wires@);
    res
}

fn list_drawn_labels(labels: &Vec<Label>) -> (res: Vec<(i64, i64)>)
    ensures
        res@ == drawn_labels(labels@),
{
    let mut res: Vec<(i64, i64)> = Vec::new();
    let mut i: usize = 0;
    assert(labels@.take(0) =~= Seq::empty());
    while i < labels.len()
        invariant
            i <= labels@.len(),
            res@ == drawn_labels(labels@.take(i as int)),
        decreases labels@.len() - i,
    {
        assert(labels@.take(i + 1).drop_last() =~= labels@.take(i as int));
        assert(labels@.take(i + 1).last() == labels@[i as int]);
        if labels[i].kind != LabelKind::PowerSymbol {
            res.push((labels[i].x, labels[i].y));
        }
        i += 1;
    }
    assert(labels@.take(i as int) =~= labels@);
    res
}

fn list_pin_places(pins: &Vec<PlacedPin>) -> (res: Vec<(i64, i64)>)
    ensures
        res@ == pin_places(pins@),
{
    let mut res: Vec<(i64, i64)> = Vec::new();
    let mut i: usize = 0;
    while i < pins.len()
        invariant
            i <= pins@.len(),
            res@ =~= pin_places(pins@).take(i as int),
        decreases pins@.len() - i,
    {
        res.push((pins[i].x, pins[i].y));
        i += 1;
    }
    assert(pin_places(pins@).take(i as int) =~= pin_places(pins@));
    res
}

impl<'a> ConnectivityIndex<'a> {
    /// The items of the index.
    pub closed spec fn sheet(self) -> SheetItems {
        *self.items
    }

    /// The tolerance of the index.
    pub closed spec fn tol(self) -> int {
        self.on_wire.tolerance_spec()
    }

    #[verifier::type_invariant]
    spec fn inv(self) -> bool {
        let tol = self.on_wire.tolerance_spec();
        &&& self.on_wire.indexed() == self.items.wires@
        &&& self.wire_ends.indexed() == wire_ends(self.items.wires@)
        &&& self.wire_ends.tolerance() == tol
        &&& self.label_points.indexed() == drawn_labels(self.items.labels@)
        &&& self.label_points.tolerance() == tol
        &&& self.pin_points.indexed() == pin_places(self.items.placed_pins@)
        &&& self.pin_points.tolerance() == tol
        &&& self.sheet_pin_points.indexed() == self.items.sheet_pins@
        &&& self.sheet_pin_points.tolerance() == tol
        &&& self.junction_points.indexed() == self.items.junctions@
        &&& self.junction_points.tolerance() == tol
        &&& self.no_connect_points.indexed() == self.items.no_connects@
        &&& self.no_connect_points.tolerance() == tol
    }

    /// Indexes the items of a sheet.
    pub fn build(items: &'a SheetItems, tolerance: i64) -> (res: ConnectivityIndex<'a>)
        requires
            tolerance > 0,
        ensures
            res.sheet() == *items,
            res.tol() == tolerance,
    {
        let ends = list_wire_ends(&items.wires);
        let labels = list_drawn_labels(&items.labels);
        let pins = list_pin_places(&items.placed_pins);
        ConnectivityIndex {
            items,
            on_wire: WireIndex::build(&items.wires, tolerance),
            wire_ends: PointIndex::build(&ends, tolerance),
            label_points: PointIndex::build(&labels, tolerance),
            pin_points: PointIndex::build(&pins, tolerance),
            sheet_pin_points: PointIndex::build(&items.sheet_pins, tolerance),
            junction_points: PointIndex::build(&items.junctions, tolerance),
            no_connect_points: PointIndex::build(&items.no_connects, tolerance),
        }
    }

    /// The pins of the sheet.
    pub fn placed_pins(&self) -> (res: &'a Vec<PlacedPin>)
        ensures
            *res == self.sheet().placed_pins,
    {
        &self.items.placed_pins
    }

    /// The labels of the sheet.
    pub fn labels(&self) -> (res: &'a Vec<Label>)
        ensures
            *res == self.sheet().labels,
    {
        &self.items.labels
    }

    /// How many wire ends lie at a place. A wire end counts itself, so two or
    /// more means that wires meet here.
    pub fn wire_ends_at(&self, x: i64, y: i64) -> (res: usize)
        ensures
            res == count_near(wire_ends(self.sheet().wires@), x as int, y as int, self.tol()),
    {
        proof {
            use_type_invariant(self);
        }
        self.wire_ends.count_at(x, y)
    }

    /// Whether a wire ends at a place.
    pub fn has_wire_end(&self, x: i64, y: i64) -> (res: bool)
        ensures
            res == near(wire_ends(self.sheet().wires@), x as int, y as int, self.tol()),
    {
        proof {
            use_type_invariant(self);
        }
        self.wire_ends.contains(x, y)
    }

    /// Whether a place lies anywhere on a wire, the ends included.
    pub fn on_wire(&self, x: i64, y: i64) -> (res: bool)
        ensures
            res == on_some_wire(self.sheet().wires@, x as int, y as int, self.tol()),
    {
        proof {
            use_type_invariant(self);
        }
        self.on_wire.covers(x, y)
    }

    /// Whether a place lies on the interior of a wire.
    pub fn on_wire_interior(&self, x: i64, y: i64) -> (res: bool)
        ensures
            res == on_some_interior(self.sheet().wires@, x as int, y as int, self.tol()),
    {
        proof {
            use_type_invariant(self);
        }
        self.on_wire.covers_interior(x, y)
    }

    /// How many wires lie under a place: one wire that passes is told from two
    /// that cross.
    pub fn wires_at(&self, x: i64, y: i64) -> (res: usize)
        ensures
            res == wires_through(self.sheet().wires@, x as int, y as int, self.tol()),
    {
        let wires = &self.items.wires;
        let tol: i64 = self.on_wire.tolerance();
        let mut count: usize = 0;
        let mut i: usize = 0;
        assert(wires@.take(0) =~= Seq::empty());
        while i < wires.len()
            invariant
                i <= wires@.len(),
                count <= i,
                count == wires_through(wires@.take(i as int), x as int, y as int, tol as int),
            decreases wires@.len() - i,
        {
            assert(wires@.take(i + 1).drop_last() =~= wires@.take(i as int));
            assert(wires@.take(i + 1).last() == wires@[i as int]);
            if point_on_wire(&wires[i], x, y, tol) {
                count += 1;
            }
            i += 1;
        }
        assert(wires@.take(i as int) =~= wires@);
        count
    }

    /// Whether a label is at a place.
    pub fn has_label(&self, x: i64, y: i64) -> (res: bool)
        ensures
            res == near(drawn_labels(self.sheet().labels@), x as int, y as int, self.tol()),
    {
        proof {
            use_type_invariant(self);
        }
        self.label_points.contains(x, y)
    }

    /// How many pins lie at a place. A pin counts itself, so two or more means
    /// that pins are stacked, which connects them.
    pub fn pins_at(&self, x: i64, y: i64) -> (res: usize)
        ensures
            res == count_near(
                pin_places(self.sheet().placed_pins@),
                x as int,
                y as int,
                self.tol(),
            ),
    {
        proof {
            use_type_invariant(self);
        }
        self.pin_points.count_at(x, y)
    }

    /// Whether a pin is at a place.
    pub fn has_pin(&self, x: i64, y: i64) -> (res: bool)
        ensures
            res == near(pin_places(self.sheet().placed_pins@), x as int, y as int, self.tol()),
    {
        proof {
            use_type_invariant(self);
        }
        self.pin_points.contains(x, y)
    }

    /// Whether a sheet pin is at a place.
    pub fn has_sheet_pin(&self, x: i64, y: i64) -> (res: bool)
        ensures
            res == near(self.sheet().sheet_pins@, x as int, y as int, self.tol()),
    {
        proof {
            use_type_invariant(self);
        }
        self.sheet_pin_points.contains(x, y)
    }

    /// Whether a junction dot is at a place.
    pub fn has_junction(&self, x: i64, y: i64) -> (res: bool)
        ensures
            res == near(self.sheet().junctions@, x as int, y as int, self.tol()),
    {
        proof {
            use_type_invariant(self);
        }
        self.junction_points.contains(x, y)
    }

    /// Whether a no-connect flag is at a place.
    pub fn has_no_connect(&self, x: i64, y: i64) -> (res: bool)
        ensures
            res == near(self.sheet().no_connects@, x as int, y as int, self.tol()),
    {
        proof {
            use_type_invariant(self);
        }
        self.no_connect_points.contains(x, y)
    }

    /// Whether a wire end at a place is terminated.
    pub fn terminates_wire_end(&self, x: i64, y: i64) -> (res: bool)
        ensures
            res == terminated(self.sheet(), x as int, y as int, self.tol()),
    {
        self.has_pin(x, y) || self.has_label(x, y) || self.has_sheet_pin(x, y) || self.has_junction(
            x,
            y,
        ) || self.has_no_connect(x, y) || self.wire_ends_at(x, y) >= 2 || self.on_wire_interior(
            x,
            y,
        )
    }

    /// Whether a pin at a place is attached to anything.
    pub fn attaches_pin(&self, x: i64, y: i64) -> (res: bool)
        ensures
            res == attached(self.sheet(), x as int, y as int, self.tol()),
    {
        self.has_wire_end(x, y) || self.has_label(x, y) || self.has_sheet_pin(x, y) || self.pins_at(
            x,
            y,
        ) >= 2 || (self.has_junction(x, y) && self.on_wire(x, y))
    }

    /// Every wire end that nothing terminates.
    pub fn floating_wire_ends(&self) -> (res: Vec<FloatingEnd>)
        ensures
            floating_views(res@) == floating_ends(
                self.sheet(),
                self.tol(),
                self.sheet().wires@.len(),
            ),
    {
        let wires = &self.items.wires;
        let ghost sheet = self.sheet();
        let ghost tol = self.tol();
        let mut res: Vec<FloatingEnd> = Vec::new();
        let mut i: usize = 0;
        assert(floating_views(res@) =~= floating_ends(sheet, tol, 0));
        while i < wires.len()
            invariant
                i <= wires@.len(),
                wires@ == sheet.wires@,
                sheet == self.sheet(),
                tol == self.tol(),
                floating_views(res@) == floating_ends(sheet, tol, i as nat),
            decreases wires@.len() - i,
        {
            let wire = &wires[i];
            let ghost before = floating_views(res@);
            self.report_end(wire.x1, wire.y1, &wire.uuid, &mut res);
            let ghost middle = floating_views(res@);
            self.report_end(wire.x2, wire.y2, &wire.uuid, &mut res);
            assert(floating_views(res@) =~= before + floating_end(
                sheet,
                tol,
                *wire,
                wire.x1,
                wire.y1,
            ) + floating_end(sheet, tol, *wire, wire.x2, wire.y2));
            i += 1;
        }
        res
    }

    fn report_end(&self, x: i64, y: i64, uuid: &Option<String>, res: &mut Vec<FloatingEnd>)
        ensures
            floating_views(final(res)@) == floating_views(old(res)@) + (if terminated(
                self.sheet(),
                x as int,
                y as int,
                self.tol(),
            ) {
                Seq::empty()
            } else {
                seq![(x, y, *uuid)]
            }),
    {
        let ghost before = res@;
        if !self.terminates_wire_end(x, y) {
            res.push(FloatingEnd { x, y, wire_uuid: clone_opt(uuid) });
        }
        assert(floating_views(res@) =~= floating_views(before) + (if terminated(
            self.sheet(),
            x as int,
            y as int,
            self.tol(),
        ) {
            Seq::empty()
        } else {
            seq![(x, y, *uuid)]
        }));
    }
}

/// A wire end that nothing terminates.
#[derive(PartialEq, Eq, Debug)]
pub struct FloatingEnd {
    pub x: i64,
    pub y: i64,
    pub wire_uuid: Option<String>,
}

/// The contents of a list of floating ends.
pub open spec fn floating_views(list: Seq<FloatingEnd>) -> Seq<(i64, i64, Option<String>)> {
    Seq::new(list.len(), |i: int| (list[i].x, list[i].y, list[i].wire_uuid))
}

/// The end of a wire, where nothing terminates it.
pub open spec fn floating_end(
    items: SheetItems,
    tol: int,
    wire: Wire,
    x: i64,
    y: i64,
) -> Seq<(i64, i64, Option<String>)> {
    if terminated(items, x as int, y as int, tol) {
        Seq::empty()
    } else {
        seq![(x, y, wire.uuid)]
    }
}

/// The floating ends of the first `n` wires.
pub open spec fn floating_ends(items: SheetItems, tol: int, n: nat) -> Seq<
    (i64, i64, Option<String>),
>
    decreases n,
{
    if n == 0 {
        Seq::empty()
    } else {
        let wire = items.wires@[n - 1];
        floating_ends(items, tol, (n - 1) as nat) + floating_end(
            items,
            tol,
            wire,
            wire.x1,
            wire.y1,
        ) + floating_end(items, tol, wire, wire.x2, wire.y2)
    }
}

/// Coincidence is the wider notion: places that the net graph takes for one
/// node coincide.
pub proof fn law_one_node_coincides(a: (i64, i64), b: (i64, i64))
    requires
        node_at(a) == node_at(b),
    ensures
        crate::geometry::coincident(
            a.0 as int,
            a.1 as int,
            b.0 as int,
            b.1 as int,
            COINCIDENT_TOLERANCE as int,
        ),
{
    assert(crate::geometry::thousands(a.0 as int) == crate::geometry::thousands(b.0 as int));
    assert(crate::geometry::thousands(a.1 as int) == crate::geometry::thousands(b.1 as int));
}

/// Sheet pins join nothing: sheets that differ in their sheet pins alone have
/// the same nets.
pub proof fn law_sheet_pins_join_nothing(
    a: NetGraph,
    b: NetGraph,
    wires: Seq<Wire>,
    labels: Seq<Label>,
    junctions: Seq<(i64, i64)>,
    pins_a: Seq<(i64, i64)>,
    pins_b: Seq<(i64, i64)>,
    tol: int,
    x: (i64, i64),
    y: (i64, i64),
)
    requires
        is_sheet_graph(a, wires, labels, junctions, pins_a, tol),
        is_sheet_graph(b, wires, labels, junctions, pins_b, tol),
    ensures
        a.connected(x, y) == b.connected(x, y),
{
    let links = sheet_links(wires, label_places(labels), junctions, tol);
    assert(a.connected(x, y) <==> crate::links::reachable(links, x, y));
    assert(b.connected(x, y) <==> crate::links::reachable(links, x, y));
}

/// A wire that ends on a sheet pin is terminated there.
pub proof fn law_a_sheet_pin_terminates(items: SheetItems, i: int, tol: int)
    requires
        tol > 0,
        0 <= i < items.sheet_pins@.len(),
    ensures
        terminated(items, items.sheet_pins@[i].0 as int, items.sheet_pins@[i].1 as int, tol),
        attached(items, items.sheet_pins@[i].0 as int, items.sheet_pins@[i].1 as int, tol),
{
    let pin = items.sheet_pins@[i];
    crate::point_index::law_count_near_finds(
        items.sheet_pins@,
        pin.0 as int,
        pin.1 as int,
        tol,
    );
}

/// The name of a power symbol attaches nothing: an unwired power symbol is not
/// attached by the name that sits on its own pin.
pub proof fn law_power_names_attach_nothing(
    items: SheetItems,
    others: SheetItems,
    name: Label,
    x: int,
    y: int,
    tol: int,
)
    requires
        name.kind == LabelKind::PowerSymbol,
        others.labels@ == items.labels@.push(name),
        others.wires == items.wires,
        others.junctions == items.junctions,
        others.sheet_pins == items.sheet_pins,
        others.no_connects == items.no_connects,
        others.placed_pins == items.placed_pins,
    ensures
        attached(others, x, y, tol) == attached(items, x, y, tol),
        terminated(others, x, y, tol) == terminated(items, x, y, tol),
{
    assert(others.labels@.drop_last() =~= items.labels@);
}

/// Two pins that stand on each other are attached, both of them.
pub proof fn law_stacked_pins_are_attached(items: SheetItems, i: int, j: int, tol: int)
    requires
        tol > 0,
        0 <= i < items.placed_pins@.len(),
        0 <= j < items.placed_pins@.len(),
        i != j,
        items.placed_pins@[i].x == items.placed_pins@[j].x,
        items.placed_pins@[i].y == items.placed_pins@[j].y,
    ensures
        attached(items, items.placed_pins@[i].x as int, items.placed_pins@[i].y as int, tol),
        terminated(items, items.placed_pins@[i].x as int, items.placed_pins@[i].y as int, tol),
{
    let places = pin_places(items.placed_pins@);
    let (x, y) = (items.placed_pins@[i].x as int, items.placed_pins@[i].y as int);
    assert(places[i] == places[j]);
    if i < j {
        lemma_two_are_counted(places, i, j, tol);
    } else {
        lemma_two_are_counted(places, j, i, tol);
    }
    crate::point_index::law_count_near_finds(places, x, y, tol);
}

proof fn lemma_two_are_counted(places: Seq<(i64, i64)>, i: int, j: int, tol: int)
    requires
        tol > 0,
        0 <= i < j < places.len(),
        places[i] == places[j],
    ensures
        count_near(places, places[i].0 as int, places[i].1 as int, tol) >= 2,
    decreases places.len(),
{
    let rest = places.drop_last();
    let (x, y) = (places[i].0 as int, places[i].1 as int);
    assert(rest[i] == places[i]);
    if j == places.len() - 1 {
        assert(crate::geometry::coincident(x, y, rest[i].0 as int, rest[i].1 as int, tol));
        crate::point_index::law_count_near_finds(rest, x, y, tol);
    } else {
        assert(rest[j] == places[j]);
        lemma_two_are_counted(rest, i, j, tol);
    }
}

} // verus!
