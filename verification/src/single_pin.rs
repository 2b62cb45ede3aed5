//! Nets that reach at most one pin: often a missing counterpart, an orphan
//! label, or a stub that a deleted component left.

use crate::connectivity::{label_roots, net_graph_for, node_at, LibPin, SheetItems};
use crate::geometry::{pt_key, Label, LabelKind};
use crate::net_graph::{lemma_same_nets_chain, NetGraph};
use crate::sheet_reports::{label_node, same_net};
use crate::text::{ordered_list_of, owned, text_eq, texts};
use crate::text_map::{ordered_keys, TextMap};
use vstd::prelude::*;
use vstd::string::*;

verus! {

/// A pin of a placed component and where it ends.
#[derive(PartialEq, Eq, Debug)]
pub struct ComponentPin {
    pub pin: LibPin,
    pub x: i64,
    pub y: i64,
}

/// A component on the sheet with the pins of its placed unit.
#[derive(PartialEq, Eq, Debug)]
pub struct PlacedComponent {
    pub reference: String,
    pub value: String,
    pub is_power: bool,
    pub pins: Vec<ComponentPin>,
}

/// A point that counts as reaching a net.
#[derive(PartialEq, Eq, Debug)]
pub enum Connection {
    ComponentPin { reference: String, pin: String, pin_name: String, x: i64, y: i64 },
    /// A sheet pin: whatever the net meets on the other side.
    SheetPin { x: i64, y: i64 },
}

/// The content of a [`Connection`].
pub enum ConnectionView {
    ComponentPin {
        reference: Seq<char>,
        pin: Seq<char>,
        pin_name: Seq<char>,
        x: i64,
        y: i64,
    },
    SheetPin { x: i64, y: i64 },
}

impl View for Connection {
    type V = ConnectionView;

    open spec fn view(&self) -> ConnectionView {
        match self {
            Connection::ComponentPin { reference, pin, pin_name, x, y } =>
                ConnectionView::ComponentPin {
                reference: reference@,
                pin: pin@,
                pin_name: pin_name@,
                x: *x,
                y: *y,
            },
            Connection::SheetPin { x, y } => ConnectionView::SheetPin { x: *x, y: *y },
        }
    }
}

/// The contents of a list of connections.
pub open spec fn connection_views(list: Seq<Connection>) -> Seq<ConnectionView> {
    Seq::new(list.len(), |i: int| list[i]@)
}

impl ConnectionView {
    /// Where the connection is.
    pub open spec fn place(self) -> (i64, i64) {
        match self {
            ConnectionView::ComponentPin { x, y, .. } => (x, y),
            ConnectionView::SheetPin { x, y } => (x, y),
        }
    }
}

/// The connections of the first `n` pins of a component.
pub open spec fn pin_connections(component: PlacedComponent, n: nat) -> Seq<ConnectionView>
    decreases n,
{
    if n == 0 {
        Seq::empty()
    } else {
        let own = component.pins@[n - 1];
        pin_connections(component, (n - 1) as nat).push(
            ConnectionView::ComponentPin {
                reference: component.reference@,
                pin: own.pin.number@,
                pin_name: own.pin.name@,
                x: own.x,
                y: own.y,
            },
        )
    }
}

/// The connections of the first `n` components. The pin of a power symbol
/// names a rail and does not consume it, so it is none.
pub open spec fn component_connections(components: Seq<PlacedComponent>, n: nat) -> Seq<
    ConnectionView,
>
    decreases n,
{
    if n == 0 {
        Seq::empty()
    } else {
        let rest = component_connections(components, (n - 1) as nat);
        let component = components[n - 1];
        if component.is_power {
            rest
        } else {
            rest + pin_connections(component, component.pins@.len())
        }
    }
}

/// The connections of sheet pins.
pub open spec fn sheet_connections(pins: Seq<(i64, i64)>) -> Seq<ConnectionView> {
    Seq::new(pins.len(), |i: int| ConnectionView::SheetPin { x: pins[i].0, y: pins[i].1 })
}

/// Every connection of the sheet: pins of components, then sheet pins.
pub open spec fn all_connections(items: SheetItems, components: Seq<PlacedComponent>) -> Seq<
    ConnectionView,
> {
    component_connections(components, components.len()) + sheet_connections(items.sheet_pins@)
}

/// A label of this name is on the net at a place.
pub open spec fn reaches(items: SheetItems, net: Seq<char>, place: (i64, i64)) -> bool {
    exists|j: int|
        0 <= j < items.labels@.len() && (#[trigger] items.labels@[j]).net@ == net && same_net(
            items,
            label_node(items.labels@[j]),
            node_at(place),
        )
}

/// Those of the first `n` connections that a net reaches.
pub open spec fn reached(
    items: SheetItems,
    connections: Seq<ConnectionView>,
    net: Seq<char>,
    n: nat,
) -> Seq<ConnectionView>
    decreases n,
{
    if n == 0 {
        Seq::empty()
    } else {
        let rest = reached(items, connections, net, (n - 1) as nat);
        if reaches(items, net, connections[n - 1].place()) {
            rest.push(connections[n - 1])
        } else {
            rest
        }
    }
}

/// How many of the first `n` labels have this name.
pub open spec fn label_count(labels: Seq<Label>, net: Seq<char>, n: nat) -> nat
    decreases n,
{
    if n == 0 {
        0
    } else {
        label_count(labels, net, (n - 1) as nat) + if labels[n - 1].net@ == net {
            1nat
        } else {
            0
        }
    }
}

/// The first label of this name is at position `i`.
pub open spec fn is_first_label(labels: Seq<Label>, net: Seq<char>, i: int) -> bool {
    &&& 0 <= i < labels.len()
    &&& labels[i].net@ == net
    &&& forall|j: int| 0 <= j < i ==> (#[trigger] labels[j]).net@ != net
}

/// A label of this kind has this name.
pub open spec fn has_kind(labels: Seq<Label>, net: Seq<char>, kind: LabelKind) -> bool {
    exists|j: int|
        0 <= j < labels.len() && (#[trigger] labels[j]).net@ == net && labels[j].kind == kind
}

/// The kinds of the labels of this name, in the order of the kinds' names.
pub open spec fn kinds_of(labels: Seq<Label>, net: Seq<char>) -> Seq<LabelKind> {
    one_kind(labels, net, LabelKind::GlobalLabel) + one_kind(
        labels,
        net,
        LabelKind::HierarchicalLabel,
    ) + one_kind(labels, net, LabelKind::NetLabel) + one_kind(labels, net, LabelKind::PowerSymbol)
}

/// The kind, where a label of this name has it.
pub open spec fn one_kind(labels: Seq<Label>, net: Seq<char>, kind: LabelKind) -> Seq<LabelKind> {
    if has_kind(labels, net, kind) {
        seq![kind]
    } else {
        Seq::empty()
    }
}

/// A label of this kind can carry its net off the sheet.
pub open spec fn leaves_sheet(kind: LabelKind) -> bool {
    kind != LabelKind::NetLabel
}

/// Some label of this name can carry its net off the sheet.
pub open spec fn may_leave_sheet(labels: Seq<Label>, net: Seq<char>) -> bool {
    exists|j: int|
        0 <= j < labels.len() && (#[trigger] labels[j]).net@ == net && leaves_sheet(labels[j].kind)
}

/// A net that reaches at most one pin.
#[derive(PartialEq, Eq, Debug)]
pub struct SinglePinNet {
    pub net: String,
    pub x: i64,
    pub y: i64,
    pub kind: LabelKind,
    pub label_types: Vec<LabelKind>,
    pub cross_sheet_unverified: bool,
    pub label_count: usize,
    pub pins: Vec<Connection>,
}

/// The report is what the sheet shows of a net.
pub open spec fn reports(
    items: SheetItems,
    connections: Seq<ConnectionView>,
    net: Seq<char>,
    report: SinglePinNet,
) -> bool {
    let labels = items.labels@;
    &&& report.net@ == net
    &&& exists|i: int| #[trigger]
        is_first_label(labels, net, i) && report.x == labels[i].x && report.y == labels[i].y
            && report.kind == labels[i].kind
    &&& report.label_types@ == kinds_of(labels, net)
    &&& report.cross_sheet_unverified == may_leave_sheet(labels, net)
    &&& report.label_count == label_count(labels, net, labels.len())
    &&& connection_views(report.pins@) == reached(items, connections, net, connections.len())
}

/// A label has this name.
pub open spec fn is_name(labels: Seq<Label>, net: Seq<char>) -> bool {
    exists|j: int| 0 <= j < labels.len() && (#[trigger] labels[j]).net@ == net
}

/// The names of all labels.
pub open spec fn all_names(labels: Seq<Label>) -> Set<Seq<char>> {
    Set::new(|net: Seq<char>| is_name(labels, net))
}

/// Those of the first `n` names whose nets reach at most one connection.
pub open spec fn lonely(
    items: SheetItems,
    connections: Seq<ConnectionView>,
    names: Seq<Seq<char>>,
    n: nat,
) -> Seq<Seq<char>>
    decreases n,
{
    if n == 0 {
        Seq::empty()
    } else {
        let rest = lonely(items, connections, names, (n - 1) as nat);
        if reached(items, connections, names[n - 1], connections.len()).len() <= 1 {
            rest.push(names[n - 1])
        } else {
            rest
        }
    }
}

/// Whether a label of this kind can carry its net off the sheet.
///
/// A local label names a net within one sheet. A global label and a power
/// symbol join every net of their name in the project, and a hierarchical label
/// goes on through the sheet pin of the parent.
pub fn reaches_beyond_this_sheet(kind: &LabelKind) -> (res: bool)
    ensures
        res == leaves_sheet(*kind),
{
    match kind {
        LabelKind::NetLabel => false,
        LabelKind::GlobalLabel | LabelKind::HierarchicalLabel | LabelKind::PowerSymbol => true,
    }
}

/// The name of a kind of label.
pub fn kind_text(kind: LabelKind) -> (res: String)
    ensures
        res@ == match kind {
            LabelKind::NetLabel => "NetLabel"@,
            LabelKind::GlobalLabel => "GlobalLabel"@,
            LabelKind::HierarchicalLabel => "HierarchicalLabel"@,
            LabelKind::PowerSymbol => "PowerSymbol"@,
        },
{
    match kind {
        LabelKind::NetLabel => owned("NetLabel"),
        LabelKind::GlobalLabel => owned("GlobalLabel"),
        LabelKind::HierarchicalLabel => owned("HierarchicalLabel"),
        LabelKind::PowerSymbol => owned("PowerSymbol"),
    }
}

fn list_connections(items: &SheetItems, components: &Vec<PlacedComponent>) -> (res: Vec<Connection>)
    ensures
        connection_views(res@) == all_connections(*items, components@),
{
    let mut res: Vec<Connection> = Vec::new();
    let mut i: usize = 0;
    assert(connection_views(res@) =~= component_connections(components@, 0));
    while i < components.len()
        invariant
            i <= components@.len(),
            connection_views(res@) == component_connections(components@, i as nat),
        decreases components@.len() - i,
    {
        let component = &components[i];
        let ghost start = connection_views(res@);
        if !component.is_power {
            let mut p: usize = 0;
            assert(start + pin_connections(*component, 0) =~= start);
            while p < component.pins.len()
                invariant
                    p <= component.pins@.len(),
                    connection_views(res@) == start + pin_connections(*component, p as nat),
                decreases component.pins@.len() - p,
            {
                let own = &component.pins[p];
                let ghost before = connection_views(res@);
                let ghost rest = pin_connections(*component, p as nat);
                let connection = Connection::ComponentPin {
                    reference: component.reference.clone(),
                    pin: own.pin.number.clone(),
                    pin_name: own.pin.name.clone(),
                    x: own.x,
                    y: own.y,
                };
                res.push(connection);
                proof {
                    assert(connection_views(res@) =~= before.push(connection@));
                    assert((start + rest).push(connection@) =~= start + rest.push(connection@));
                }
                p += 1;
            }
        }
        i += 1;
    }
    let ghost base = component_connections(components@, components@.len());
    let ghost extra = sheet_connections(items.sheet_pins@);
    let mut s: usize = 0;
    assert(base + extra.take(0) =~= base);
    while s < items.sheet_pins.len()
        invariant
            s <= items.sheet_pins@.len(),
            extra == sheet_connections(items.sheet_pins@),
            connection_views(res@) == base + extra.take(s as int),
        decreases items.sheet_pins@.len() - s,
    {
        let (x, y) = items.sheet_pins[s];
        let ghost before = connection_views(res@);
        let connection = Connection::SheetPin { x, y };
        res.push(connection);
        proof {
            assert(connection_views(res@) =~= before.push(extra[s as int]));
            assert(base + extra.take(s + 1) =~= (base + extra.take(s as int)).push(
                extra[s as int],
            ));
        }
        s += 1;
    }
    assert(extra.take(s as int) =~= extra);
    res
}

fn place_of(connection: &Connection) -> (res: (i64, i64))
    ensures
        res == connection@.place(),
{
    match connection {
        Connection::ComponentPin { x, y, .. } => (*x, *y),
        Connection::SheetPin { x, y } => (*x, *y),
    }
}

fn copy_connection(connection: &Connection) -> (res: Connection)
    ensures
        res@ == connection@,
{
    match connection {
        Connection::ComponentPin { reference, pin, pin_name, x, y } => Connection::ComponentPin {
            reference: reference.clone(),
            pin: pin.clone(),
            pin_name: pin_name.clone(),
            x: *x,
            y: *y,
        },
        Connection::SheetPin { x, y } => Connection::SheetPin { x: *x, y: *y },
    }
}

/// The roots of labels and connections tell which of them are on the same net.
spec fn roots_agree(
    items: SheetItems,
    connections: Seq<ConnectionView>,
    roots: Seq<(i64, i64)>,
    places: Seq<(i64, i64)>,
) -> bool {
    &&& roots.len() == items.labels@.len()
    &&& places.len() == connections.len()
    &&& forall|i: int, j: int|
        0 <= i < roots.len() && 0 <= j < places.len() ==> ((#[trigger] roots[i]
            == #[trigger] places[j]) <==> same_net(
            items,
            label_node(items.labels@[i]),
            node_at(connections[j].place()),
        ))
}

fn find_roots(graph: &mut NetGraph, connections: &Vec<Connection>) -> (res: Vec<(i64, i64)>)
    requires
        old(graph).valid(),
    ensures
        res@.len() == connections@.len(),
        forall|i: int|
            0 <= i < res@.len() ==> #[trigger] res@[i] == old(graph).root(
                node_at(connections@[i]@.place()),
            ),
{
    let mut res: Vec<(i64, i64)> = Vec::new();
    let mut i: usize = 0;
    while i < connections.len()
        invariant
            i <= connections@.len(),
            res@.len() == i,
            graph.same_nets(*old(graph)),
            forall|j: int|
                0 <= j < i ==> #[trigger] res@[j] == old(graph).root(
                    node_at(connections@[j]@.place()),
                ),
        decreases connections@.len() - i,
    {
        let (x, y) = place_of(&connections[i]);
        let ghost before = *graph;
        let root = graph.find(pt_key(x, y));
        proof {
            let k = node_at(connections@[i as int]@.place());
            assert(before.root(k) == old(graph).root(k));
            lemma_same_nets_chain(*old(graph), before, *graph);
        }
        res.push(root);
        i += 1;
    }
    res
}

fn root_is_named(
    items: &SheetItems,
    roots: &Vec<(i64, i64)>,
    root: (i64, i64),
    net: &str,
) -> (res: bool)
    requires
        roots@.len() == items.labels@.len(),
    ensures
        res == (exists|j: int|
            0 <= j < items.labels@.len() && (#[trigger] items.labels@[j]).net@ == net@ && roots@[j]
                == root),
{
    let mut j: usize = 0;
    while j < items.labels.len()
        invariant
            j <= items.labels@.len(),
            roots@.len() == items.labels@.len(),
            forall|m: int|
                0 <= m < j ==> !((#[trigger] items.labels@[m]).net@ == net@ && roots@[m] == root),
        decreases items.labels@.len() - j,
    {
        let own = roots[j];
        if own.0 == root.0 && own.1 == root.1 && text_eq(items.labels[j].net.as_str(), net) {
            assert(items.labels@[j as int].net@ == net@);
            return true;
        }
        j += 1;
    }
    false
}

/// The connections that a net reaches.
fn find_reached(
    items: &SheetItems,
    connections: &Vec<Connection>,
    roots: &Vec<(i64, i64)>,
    places: &Vec<(i64, i64)>,
    net: &str,
) -> (res: Vec<Connection>)
    requires
        roots_agree(*items, connection_views(connections@), roots@, places@),
    ensures
        connection_views(res@) == reached(
            *items,
            connection_views(connections@),
            net@,
            connections@.len(),
        ),
{
    let ghost all = connection_views(connections@);
    let mut res: Vec<Connection> = Vec::new();
    let mut i: usize = 0;
    assert(connection_views(res@) =~= reached(*items, all, net@, 0));
    while i < connections.len()
        invariant
            i <= connections@.len(),
            all == connection_views(connections@),
            roots_agree(*items, all, roots@, places@),
            connection_views(res@) == reached(*items, all, net@, i as nat),
        decreases connections@.len() - i,
    {
        let ghost before = connection_views(res@);
        let named = root_is_named(items, roots, places[i], net);
        proof {
            let place = all[i as int].place();
            if named {
                let j = choose|j: int|
                    0 <= j < items.labels@.len() && (#[trigger] items.labels@[j]).net@ == net@
                        && roots@[j] == places@[i as int];
                assert(roots@[j] == places@[i as int]);
                assert(reaches(*items, net@, place));
            }
            if reaches(*items, net@, place) {
                let j = choose|j: int|
                    0 <= j < items.labels@.len() && (#[trigger] items.labels@[j]).net@ == net@
                        && same_net(*items, label_node(items.labels@[j]), node_at(place));
                assert((roots@[j] == places@[i as int]) <==> same_net(
                    *items,
                    label_node(items.labels@[j]),
                    node_at(place),
                ));
                assert(named);
            }
        }
        if named {
            let copy = copy_connection(&connections[i]);
            res.push(copy);
            assert(connection_views(res@) =~= before.push(all[i as int]));
        }
        i += 1;
    }
    res
}

/// What the labels say of a name.
struct NameFacts {
    first: usize,
    count: usize,
    kinds: Vec<LabelKind>,
    leaves: bool,
}

fn label_has_kind(labels: &Vec<Label>, net: &str, kind: LabelKind) -> (res: bool)
    ensures
        res == has_kind(labels@, net@, kind),
{
    let mut j: usize = 0;
    while j < labels.len()
        invariant
            j <= labels@.len(),
            forall|m: int|
                0 <= m < j ==> !((#[trigger] labels@[m]).net@ == net@ && labels@[m].kind == kind),
        decreases labels@.len() - j,
    {
        if labels[j].kind == kind && text_eq(labels[j].net.as_str(), net) {
            assert(labels@[j as int].net@ == net@);
            return true;
        }
        j += 1;
    }
    false
}

fn push_kind(labels: &Vec<Label>, net: &str, kind: LabelKind, kinds: &mut Vec<LabelKind>)
    ensures
        final(kinds)@ == old(kinds)@ + one_kind(labels@, net@, kind),
{
    let ghost before = kinds@;
    if label_has_kind(labels, net, kind) {
        kinds.push(kind);
    }
    assert(kinds@ =~= before + one_kind(labels@, net@, kind));
}

fn name_facts(labels: &Vec<Label>, net: &str) -> (res: NameFacts)
    requires
        is_name(labels@, net@),
    ensures
        is_first_label(labels@, net@, res.first as int),
        res.count == label_count(labels@, net@, labels@.len()),
        res.kinds@ == kinds_of(labels@, net@),
        res.leaves == may_leave_sheet(labels@, net@),
{
    let mut first: Option<usize> = None;
    let mut count: usize = 0;
    let mut leaves: bool = false;
    let mut j: usize = 0;
    while j < labels.len()
        invariant
            j <= labels@.len(),
            count <= j,
            count == label_count(labels@, net@, j as nat),
            leaves == (exists|m: int|
                0 <= m < j && (#[trigger] labels@[m]).net@ == net@ && leaves_sheet(
                    labels@[m].kind,
                )),
            match first {
                Some(i) => i < j && is_first_label(labels@, net@, i as int),
                None => forall|m: int| 0 <= m < j ==> (#[trigger] labels@[m]).net@ != net@,
            },
        decreases labels@.len() - j,
    {
        let label = &labels[j];
        let ghost left = leaves;
        if text_eq(label.net.as_str(), net) {
            if first.is_none() {
                first = Some(j);
            }
            count += 1;
            if reaches_beyond_this_sheet(&label.kind) {
                leaves = true;
            }
        }
        proof {
            if leaves && !left {
                assert(labels@[j as int].net@ == net@);
            }
            if left {
                let m = choose|m: int|
                    0 <= m < j && (#[trigger] labels@[m]).net@ == net@ && leaves_sheet(
                        labels@[m].kind,
                    );
                assert(labels@[m].net@ == net@);
            }
        }
        j += 1;
    }
    let mut kinds: Vec<LabelKind> = Vec::new();
    push_kind(labels, net, LabelKind::GlobalLabel, &mut kinds);
    push_kind(labels, net, LabelKind::HierarchicalLabel, &mut kinds);
    push_kind(labels, net, LabelKind::NetLabel, &mut kinds);
    push_kind(labels, net, LabelKind::PowerSymbol, &mut kinds);
    assert(kinds@ =~= kinds_of(labels@, net@));
    let first_index: usize = match first {
        Some(i) => i,
        None => 0,
    };
    NameFacts { first: first_index, count, kinds, leaves }
}

fn name_list(labels: &Vec<Label>) -> (res: Vec<String>)
    ensures
        texts(res@) == ordered_list_of(all_names(labels@)),
        forall|i: int|
            0 <= i < res@.len() ==> is_name(labels@, (#[trigger] res@[i])@),
{
    let mut names: TextMap<bool> = TextMap::new();
    let mut i: usize = 0;
    while i < labels.len()
        invariant
            i <= labels@.len(),
            forall|net: Seq<char>| #[trigger]
                names@.contains_key(net) <==> exists|j: int|
                    0 <= j < i && (#[trigger] labels@[j]).net@ == net,
        decreases labels@.len() - i,
    {
        let ghost before = names@;
        names.insert(labels[i].net.clone(), true);
        proof {
            assert forall|net: Seq<char>| #[trigger]
                names@.contains_key(net) <==> exists|j: int|
                    0 <= j < i + 1 && (#[trigger] labels@[j]).net@ == net by {
                assert(before.contains_key(net) <==> exists|j: int|
                    0 <= j < i && (#[trigger] labels@[j]).net@ == net);
                if net == labels@[i as int].net@ {
                    assert(labels@[i as int].net@ == net);
                }
            }
        }
        i += 1;
    }
    assert(names@.dom() =~= all_names(labels@));
    let res = ordered_keys(&names);
    proof {
        assert forall|i: int| 0 <= i < res@.len() implies is_name(
            labels@,
            (#[trigger] res@[i])@,
        ) by {
            assert(texts(res@)[i] == res@[i]@);
            assert(names.keys().contains(names.keys()[i]));
            assert(names@.contains_key(res@[i]@));
        }
    }
    res
}

/// The names of the nets on a sheet, each once, in order.
pub fn list_nets(labels: &Vec<Label>) -> (res: Vec<String>)
    ensures
        texts(res@) == ordered_list_of(all_names(labels@)),
{
    name_list(labels)
}

/// Finds the nets that reach at most one pin, in the order of their names.
///
/// Nets that reach none count as well: such a label is an orphan or a stub.
/// The answer is for one sheet, so a net that a label can carry off it is
/// marked as not verified across sheets.
pub fn find_single_pin_nets(
    items: &SheetItems,
    components: &Vec<PlacedComponent>,
) -> (res: Vec<SinglePinNet>)
    ensures
        ({
            let connections = all_connections(*items, components@);
            let names = ordered_list_of(all_names(items.labels@));
            let wanted = lonely(*items, connections, names, names.len());
            &&& res@.len() == wanted.len()
            &&& forall|i: int|
                0 <= i < wanted.len() ==> reports(
                    *items,
                    connections,
                    wanted[i],
                    #[trigger] res@[i],
                )
        }),
{
    let mut graph = net_graph_for(items);
    let ghost built = graph;
    let roots = label_roots(&mut graph, &items.labels);
    let ghost walked = graph;
    let connections = list_connections(items, components);
    let places = find_roots(&mut graph, &connections);
    let ghost all = connection_views(connections@);
    proof {
        assert forall|i: int, j: int|
            0 <= i < roots@.len() && 0 <= j < places@.len() implies ((#[trigger] roots@[i]
            == #[trigger] places@[j]) <==> same_net(
            *items,
            label_node(items.labels@[i]),
            node_at(all[j].place()),
        )) by {
            let (a, b) = (label_node(items.labels@[i]), node_at(all[j].place()));
            assert(walked.root(b) == built.root(b));
            assert(built.connected(a, b) <==> same_net(*items, a, b));
        }
        assert(roots_agree(*items, all, roots@, places@));
    }
    let names = name_list(&items.labels);
    let ghost listed = texts(names@);
    let mut res: Vec<SinglePinNet> = Vec::new();
    let mut i: usize = 0;
    while i < names.len()
        invariant
            i <= names@.len(),
            listed == texts(names@),
            all == connection_views(connections@),
            roots_agree(*items, all, roots@, places@),
            forall|k: int|
                0 <= k < names@.len() ==> is_name(items.labels@, (#[trigger] names@[k])@),
            res@.len() == lonely(*items, all, listed, i as nat).len(),
            forall|k: int|
                0 <= k < res@.len() ==> reports(
                    *items,
                    all,
                    lonely(*items, all, listed, i as nat)[k],
                    #[trigger] res@[k],
                ),
        decreases names@.len() - i,
    {
        let net = names[i].as_str();
        let ghost rest = lonely(*items, all, listed, i as nat);
        let ghost before = res@;
        assert(listed[i as int] == net@);
        let pins = find_reached(items, &connections, &roots, &places, net);
        assert(connection_views(pins@).len() == pins@.len());
        if pins.len() <= 1 {
            let ghost name = names@[i as int];
            assert(name@ == net@);
            let facts = name_facts(&items.labels, net);
            let first = &items.labels[facts.first];
            let report = SinglePinNet {
                net: owned(net),
                x: first.x,
                y: first.y,
                kind: first.kind,
                label_types: facts.kinds,
                cross_sheet_unverified: facts.leaves,
                label_count: facts.count,
                pins,
            };
            res.push(report);
            proof {
                let now = lonely(*items, all, listed, (i + 1) as nat);
                assert(now == rest.push(net@));
                assert(reports(*items, all, net@, report));
                assert forall|k: int| 0 <= k < res@.len() implies reports(
                    *items,
                    all,
                    now[k],
                    #[trigger] res@[k],
                ) by {
                    if k < before.len() {
                        assert(res@[k] == before[k]);
                        assert(now[k] == rest[k]);
                    }
                }
            }
        }
        i += 1;
    }
    res
}

/// A net that reaches two pins or more is never reported, however many labels
/// name it, and one that is reported reaches at most one.
pub proof fn law_only_lonely_nets_are_reported(
    items: SheetItems,
    connections: Seq<ConnectionView>,
    names: Seq<Seq<char>>,
    n: nat,
    k: int,
)
    requires
        n <= names.len(),
        0 <= k < lonely(items, connections, names, n).len(),
    ensures
        reached(
            items,
            connections,
            lonely(items, connections, names, n)[k],
            connections.len(),
        ).len() <= 1,
        names.contains(lonely(items, connections, names, n)[k]),
    decreases n,
{
    let rest = lonely(items, connections, names, (n - 1) as nat);
    if k < rest.len() {
        law_only_lonely_nets_are_reported(items, connections, names, (n - 1) as nat, k);
        assert(lonely(items, connections, names, n)[k] == rest[k]);
    } else {
        assert(lonely(items, connections, names, n)[k] == names[n - 1]);
    }
}

} // verus!
