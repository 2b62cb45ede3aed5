//! What may be wrong on a sheet: things that dangle, nets that are shorted,
//! and nets that reach at most one pin.

use crate::connectivity::{
    attached, floating_ends, floating_views, is_sheet_graph, label_places, label_roots, near,
    net_graph_for, on_some_wire, pin_places, sheet_links, ConnectivityIndex, PlacedPin, SheetItems,
};
use crate::geometry::{micro, Label, LabelKind, COINCIDENT_TOLERANCE};
use crate::links::reachable;
use crate::net_graph::NetGraph;
use crate::text::{clone_opt, ordered_list_of, owned, text_eq, texts};
use crate::text_map::{ordered_keys, TextMap};
use vstd::prelude::*;
use vstd::string::*;

verus! {

/// Something on a sheet that is connected to nothing.
#[derive(PartialEq, Eq, Debug)]
pub enum Orphan {
    DanglingWireEnd { x: i64, y: i64, wire_uuid: Option<String> },
    FloatingLabel { net: String, x: i64, y: i64 },
    UnconnectedPin { reference: String, pin: String, pin_name: String, x: i64, y: i64 },
}

/// The orphans of the sheet: where they are in its lists.
pub enum OrphanView {
    DanglingWireEnd { x: i64, y: i64, wire_uuid: Option<String> },
    FloatingLabel { net: Seq<char>, x: i64, y: i64 },
    UnconnectedPin { reference: Seq<char>, pin: Seq<char>, pin_name: Seq<char>, x: i64, y: i64 },
}

impl View for Orphan {
    type V = OrphanView;

    open spec fn view(&self) -> OrphanView {
        match self {
            Orphan::DanglingWireEnd { x, y, wire_uuid } => OrphanView::DanglingWireEnd {
                x: *x,
                y: *y,
                wire_uuid: *wire_uuid,
            },
            Orphan::FloatingLabel { net, x, y } => OrphanView::FloatingLabel {
                net: net@,
                x: *x,
                y: *y,
            },
            Orphan::UnconnectedPin { reference, pin, pin_name, x, y } =>
                OrphanView::UnconnectedPin {
                reference: reference@,
                pin: pin@,
                pin_name: pin_name@,
                x: *x,
                y: *y,
            },
        }
    }
}

/// The contents of a list of orphans.
pub open spec fn orphan_views(list: Seq<Orphan>) -> Seq<OrphanView> {
    Seq::new(list.len(), |i: int| list[i]@)
}

/// A drawn label that touches neither a wire nor a pin.
pub open spec fn floats(items: SheetItems, label: Label, tol: int) -> bool {
    &&& label.kind != LabelKind::PowerSymbol
    &&& !on_some_wire(items.wires@, label.x as int, label.y as int, tol)
    &&& !near(pin_places(items.placed_pins@), label.x as int, label.y as int, tol)
}

/// A pin that is meant to be connected and is not.
pub open spec fn unconnected(items: SheetItems, placed: PlacedPin, tol: int) -> bool {
    &&& placed.pin.electrical_type@ != "no_connect"@
    &&& !near(items.no_connects@, placed.x as int, placed.y as int, tol)
    &&& !attached(items, placed.x as int, placed.y as int, tol)
}

/// The floating labels among the first `n`.
pub open spec fn floating_labels(items: SheetItems, tol: int, n: nat) -> Seq<OrphanView>
    decreases n,
{
    if n == 0 {
        Seq::empty()
    } else {
        let rest = floating_labels(items, tol, (n - 1) as nat);
        let label = items.labels@[n - 1];
        if floats(items, label, tol) {
            rest.push(OrphanView::FloatingLabel { net: label.net@, x: label.x, y: label.y })
        } else {
            rest
        }
    }
}

/// The unconnected pins among the first `n`.
pub open spec fn unconnected_pins(items: SheetItems, tol: int, n: nat) -> Seq<OrphanView>
    decreases n,
{
    if n == 0 {
        Seq::empty()
    } else {
        let rest = unconnected_pins(items, tol, (n - 1) as nat);
        let placed = items.placed_pins@[n - 1];
        if unconnected(items, placed, tol) {
            rest.push(
                OrphanView::UnconnectedPin {
                    reference: placed.reference@,
                    pin: placed.pin.number@,
                    pin_name: placed.pin.name@,
                    x: placed.x,
                    y: placed.y,
                },
            )
        } else {
            rest
        }
    }
}

/// The floating wire ends as orphans.
pub open spec fn dangling_ends(items: SheetItems, tol: int) -> Seq<OrphanView> {
    let ends = floating_ends(items, tol, items.wires@.len());
    Seq::new(
        ends.len(),
        |i: int|
            OrphanView::DanglingWireEnd { x: ends[i].0, y: ends[i].1, wire_uuid: ends[i].2 },
    )
}

/// Everything on the sheet that is connected to nothing: wire ends, then
/// labels, then pins.
pub open spec fn orphans(items: SheetItems, tol: int) -> Seq<OrphanView> {
    dangling_ends(items, tol) + floating_labels(items, tol, items.labels@.len())
        + unconnected_pins(items, tol, items.placed_pins@.len())
}

/// Finds everything on a sheet that is connected to nothing. Only a positive
/// tolerance is accepted.
pub fn find_orphan_items(items: &SheetItems, tolerance: i64) -> (res: Result<Vec<Orphan>, String>)
    ensures
        tolerance > 0 ==> (res matches Ok(list) && orphan_views(list@) == orphans(
            *items,
            tolerance as int,
        )),
        tolerance <= 0 ==> (res matches Err(refusal) && refusal@
            == "Invalid argument 'tolerance': must be finite and positive"@),
{
    if tolerance <= 0 {
        return Err(owned("Invalid argument 'tolerance': must be finite and positive"));
    }
    Ok(list_orphans(items, tolerance))
}

fn list_orphans(items: &SheetItems, tolerance: i64) -> (res: Vec<Orphan>)
    requires
        tolerance > 0,
    ensures
        orphan_views(res@) == orphans(*items, tolerance as int),
{
    let index = ConnectivityIndex::build(items, tolerance);
    let ghost tol = tolerance as int;
    let mut res: Vec<Orphan> = Vec::new();
    let ends = index.floating_wire_ends();
    let ghost first = dangling_ends(*items, tol);
    assert(floating_views(ends@).len() == ends@.len());
    let mut i: usize = 0;
    assert(orphan_views(res@) =~= first.take(0));
    while i < ends.len()
        invariant
            i <= ends@.len(),
            first == dangling_ends(*items, tol),
            floating_views(ends@) == floating_ends(*items, tol, items.wires@.len()),
            first.len() == ends@.len(),
            orphan_views(res@) == first.take(i as int),
        decreases ends@.len() - i,
    {
        let ghost before = orphan_views(res@);
        let end = &ends[i];
        assert(floating_views(ends@)[i as int] == (end.x, end.y, end.wire_uuid));
        res.push(
            Orphan::DanglingWireEnd { x: end.x, y: end.y, wire_uuid: clone_opt(&end.wire_uuid) },
        );
        assert(orphan_views(res@) =~= before.push(first[i as int]));
        assert(first.take(i + 1) =~= first.take(i as int).push(first[i as int]));
        i += 1;
    }
    assert(first.take(i as int) =~= first);
    let labels = index.labels();
    let mut j: usize = 0;
    assert(first + floating_labels(*items, tol, 0) =~= first);
    while j < labels.len()
        invariant
            j <= labels@.len(),
            index.sheet() == *items,
            index.tol() == tol,
            labels@ == items.labels@,
            orphan_views(res@) == first + floating_labels(*items, tol, j as nat),
        decreases labels@.len() - j,
    {
        let label = &labels[j];
        let ghost before = orphan_views(res@);
        let ghost rest = floating_labels(*items, tol, j as nat);
        if label.kind != LabelKind::PowerSymbol && !index.on_wire(label.x, label.y)
            && !index.has_pin(label.x, label.y) {
            let orphan = Orphan::FloatingLabel {
                net: label.net.clone(),
                x: label.x,
                y: label.y,
            };
            res.push(orphan);
            assert(orphan_views(res@) =~= before.push(orphan@));
            assert((first + rest).push(orphan@) =~= first + rest.push(orphan@));
        }
        j += 1;
    }
    let ghost second = first + floating_labels(*items, tol, items.labels@.len());
    let pins = index.placed_pins();
    let mut k: usize = 0;
    assert(second + unconnected_pins(*items, tol, 0) =~= second);
    while k < pins.len()
        invariant
            k <= pins@.len(),
            index.sheet() == *items,
            index.tol() == tol,
            pins@ == items.placed_pins@,
            orphan_views(res@) == second + unconnected_pins(*items, tol, k as nat),
        decreases pins@.len() - k,
    {
        let placed = &pins[k];
        let ghost before = orphan_views(res@);
        let ghost rest = unconnected_pins(*items, tol, k as nat);
        if !text_eq(placed.pin.electrical_type.as_str(), "no_connect") && !index.has_no_connect(
            placed.x,
            placed.y,
        ) && !index.attaches_pin(placed.x, placed.y) {
            let orphan = Orphan::UnconnectedPin {
                reference: placed.reference.clone(),
                pin: placed.pin.number.clone(),
                pin_name: placed.pin.name.clone(),
                x: placed.x,
                y: placed.y,
            };
            res.push(orphan);
            assert(orphan_views(res@) =~= before.push(orphan@));
            assert((second + rest).push(orphan@) =~= second + rest.push(orphan@));
        }
        k += 1;
    }
    res
}

/// The node of a label.
pub open spec fn label_node(label: Label) -> (i64, i64) {
    micro(label.x as int, label.y as int)
}

/// Two nodes are on the same net of the sheet.
pub open spec fn same_net(items: SheetItems, a: (i64, i64), b: (i64, i64)) -> bool {
    reachable(
        sheet_links(
            items.wires@,
            label_places(items.labels@),
            items.junctions@,
            COINCIDENT_TOLERANCE as int,
        ),
        a,
        b,
    )
}

/// The names that labels give to the net of a node.
pub open spec fn names_on(items: SheetItems, k: (i64, i64)) -> Set<Seq<char>> {
    Set::new(
        |net: Seq<char>|
            exists|j: int|
                0 <= j < items.labels@.len() && (#[trigger] items.labels@[j]).net@ == net
                    && same_net(items, label_node(items.labels@[j]), k),
    )
}

/// No label before this one is on its net.
pub open spec fn first_on_net(items: SheetItems, i: int) -> bool {
    forall|j: int|
        0 <= j < i ==> !same_net(
            items,
            label_node(#[trigger] items.labels@[j]),
            label_node(items.labels@[i]),
        )
}

/// The names of each net with more than one name, for the nets of the first
/// `n` labels: one list for each net, at its first label.
pub open spec fn shorts(items: SheetItems, n: nat) -> Seq<Seq<Seq<char>>>
    decreases n,
{
    if n == 0 {
        Seq::empty()
    } else {
        let rest = shorts(items, (n - 1) as nat);
        let names = ordered_list_of(names_on(items, label_node(items.labels@[n - 1])));
        if first_on_net(items, n - 1) && names.len() > 1 {
            rest.push(names)
        } else {
            rest
        }
    }
}

/// The texts of a list of lists.
pub open spec fn lists(list: Seq<Vec<String>>) -> Seq<Seq<Seq<char>>> {
    Seq::new(list.len(), |i: int| texts(list[i]@))
}

/// The roots of the labels tell which of them are on the same net.
spec fn roots_tell(items: SheetItems, roots: Seq<(i64, i64)>) -> bool {
    &&& roots.len() == items.labels@.len()
    &&& forall|i: int, j: int|
        0 <= i < roots.len() && 0 <= j < roots.len() ==> ((#[trigger] roots[i]
            == #[trigger] roots[j]) <==> same_net(
            items,
            label_node(items.labels@[i]),
            label_node(items.labels@[j]),
        ))
}

fn same_pair(a: (i64, i64), b: (i64, i64)) -> (res: bool)
    ensures
        res == (a == b),
{
    a.0 == b.0 && a.1 == b.1
}

fn is_first(items: &SheetItems, roots: &Vec<(i64, i64)>, i: usize) -> (res: bool)
    requires
        roots_tell(*items, roots@),
        i < roots@.len(),
    ensures
        res == first_on_net(*items, i as int),
{
    let mut j: usize = 0;
    while j < i
        invariant
            j <= i,
            i < roots@.len(),
            roots_tell(*items, roots@),
            forall|m: int|
                0 <= m < j ==> !same_net(
                    *items,
                    label_node(#[trigger] items.labels@[m]),
                    label_node(items.labels@[i as int]),
                ),
        decreases i - j,
    {
        let (a, b) = (roots[j], roots[i]);
        assert((roots@[j as int] == roots@[i as int]) <==> same_net(
            *items,
            label_node(items.labels@[j as int]),
            label_node(items.labels@[i as int]),
        ));
        if same_pair(a, b) {
            assert(same_net(
                *items,
                label_node(items.labels@[j as int]),
                label_node(items.labels@[i as int]),
            ));
            return false;
        }
        j += 1;
    }
    true
}

fn collect_names(items: &SheetItems, roots: &Vec<(i64, i64)>, i: usize) -> (res: Vec<String>)
    requires
        roots_tell(*items, roots@),
        i < roots@.len(),
    ensures
        texts(res@) == ordered_list_of(names_on(*items, label_node(items.labels@[i as int]))),
{
    let ghost k = label_node(items.labels@[i as int]);
    let mut names: TextMap<bool> = TextMap::new();
    let mut j: usize = 0;
    while j < items.labels.len()
        invariant
            j <= items.labels@.len(),
            i < roots@.len(),
            k == label_node(items.labels@[i as int]),
            roots_tell(*items, roots@),
            forall|net: Seq<char>| #[trigger]
                names@.contains_key(net) <==> exists|m: int|
                    0 <= m < j && (#[trigger] items.labels@[m]).net@ == net && same_net(
                        *items,
                        label_node(items.labels@[m]),
                        k,
                    ),
        decreases items.labels@.len() - j,
    {
        let (a, b) = (roots[j], roots[i]);
        let ghost before = names@;
        assert((roots@[j as int] == roots@[i as int]) <==> same_net(
            *items,
            label_node(items.labels@[j as int]),
            label_node(items.labels@[i as int]),
        ));
        if same_pair(a, b) {
            names.insert(items.labels[j].net.clone(), true);
        }
        proof {
            assert forall|net: Seq<char>| #[trigger]
                names@.contains_key(net) <==> exists|m: int|
                    0 <= m < j + 1 && (#[trigger] items.labels@[m]).net@ == net && same_net(
                        *items,
                        label_node(items.labels@[m]),
                        k,
                    ) by {
                assert(before.contains_key(net) <==> exists|m: int|
                    0 <= m < j && (#[trigger] items.labels@[m]).net@ == net && same_net(
                        *items,
                        label_node(items.labels@[m]),
                        k,
                    ));
                if names@.contains_key(net) && !before.contains_key(net) {
                    assert(items.labels@[j as int].net@ == net);
                }
            }
        }
        j += 1;
    }
    assert(names@.dom() =~= names_on(*items, k));
    ordered_keys(&names)
}

proof fn lemma_roots_tell(items: SheetItems, graph: NetGraph, roots: Seq<(i64, i64)>)
    requires
        is_sheet_graph(
            graph,
            items.wires@,
            items.labels@,
            items.junctions@,
            items.sheet_pins@,
            COINCIDENT_TOLERANCE as int,
        ),
        roots.len() == items.labels@.len(),
        forall|i: int|
            0 <= i < roots.len() ==> #[trigger] roots[i] == graph.root(
                micro(items.labels@[i].x as int, items.labels@[i].y as int),
            ),
    ensures
        roots_tell(items, roots),
{
    assert forall|i: int, j: int| 0 <= i < roots.len() && 0 <= j < roots.len() implies ((
    #[trigger] roots[i] == #[trigger] roots[j]) <==> same_net(
        items,
        label_node(items.labels@[i]),
        label_node(items.labels@[j]),
    )) by {
        assert(graph.connected(label_node(items.labels@[i]), label_node(items.labels@[j]))
            <==> same_net(items, label_node(items.labels@[i]), label_node(items.labels@[j])));
    }
}

/// Finds the nets that labels of more than one name are on.
pub fn find_shorted_nets(items: &SheetItems) -> (res: Vec<Vec<String>>)
    ensures
        lists(res@) == shorts(*items, items.labels@.len()),
{
    let mut graph = net_graph_for(items);
    let ghost built = graph;
    let roots = label_roots(&mut graph, &items.labels);
    proof {
        lemma_roots_tell(*items, built, roots@);
    }
    let mut res: Vec<Vec<String>> = Vec::new();
    let mut i: usize = 0;
    assert(lists(res@) =~= shorts(*items, 0));
    while i < items.labels.len()
        invariant
            i <= items.labels@.len(),
            roots_tell(*items, roots@),
            lists(res@) == shorts(*items, i as nat),
        decreases items.labels@.len() - i,
    {
        let ghost before = lists(res@);
        if is_first(items, &roots, i) {
            let names = collect_names(items, &roots, i);
            assert(texts(names@).len() == names@.len());
            if names.len() > 1 {
                let ghost own = texts(names@);
                res.push(names);
                assert(lists(res@) =~= before.push(own));
            }
        }
        i += 1;
    }
    res
}

} // verus!
