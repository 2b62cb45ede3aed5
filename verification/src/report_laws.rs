//! Which nets reach at most one pin, and what lies on each other, told from the
//! items of the sheet.

use crate::connectivity::SheetItems;
use crate::geometry::{micro, Label, LabelKind};
use crate::geometry_laws::close;
use crate::overlaps::{
    label_overlap, label_overlaps, label_row, overlap_x_of, overlap_y_of, reports_overlaps,
    symbol_overlap, symbol_overlaps, symbol_row, Overlap, OverlapReport, PlacedSymbol, SymbolBounds,
};
use crate::sheet_reports::same_net;
use crate::single_pin::{
    all_connections, all_names, component_connections, connection_views, has_kind, is_first_label,
    kinds_of, label_count, leaves_sheet, lonely, may_leave_sheet, one_kind, pin_connections,
    reached, reaches, reports, ComponentPin, ConnectionView, PlacedComponent, SinglePinNet,
};
use vstd::prelude::*;

verus! {

/// The least of four numbers.
pub open spec fn least(a: int, b: int, c: int, d: int) -> int {
    let x = if a < b {
        a
    } else {
        b
    };
    let y = if c < d {
        c
    } else {
        d
    };
    if x < y {
        x
    } else {
        y
    }
}

/// How far the rectangles share the x axis: the least way from a left edge to a
/// right one.
pub open spec fn shared_x(a: SymbolBounds, b: SymbolBounds) -> int {
    least(a.max_x - a.min_x, a.max_x - b.min_x, b.max_x - a.min_x, b.max_x - b.min_x)
}

/// How far the rectangles share the y axis.
pub open spec fn shared_y(a: SymbolBounds, b: SymbolBounds) -> int {
    least(a.max_y - a.min_y, a.max_y - b.min_y, b.max_y - a.min_y, b.max_y - b.min_y)
}

/// The overlap is that of two of the symbols: of their rectangles where both are
/// known, and of their origins where one is not.
pub open spec fn is_symbol_overlap(symbols: Seq<PlacedSymbol>, tol: int, found: Overlap) -> bool {
    match found {
        Overlap::Geometry { a, b, overlap_x, overlap_y } => {
            &&& a < b < symbols.len()
            &&& symbols[a as int].bounds is Some && symbols[b as int].bounds is Some
            &&& overlap_x == shared_x(symbols[a as int].bounds->0, symbols[b as int].bounds->0)
            &&& overlap_y == shared_y(symbols[a as int].bounds->0, symbols[b as int].bounds->0)
            &&& overlap_x > 0 && overlap_y > 0
        },
        Overlap::Origin { a, b } => {
            &&& a < b < symbols.len()
            &&& symbols[a as int].bounds is None || symbols[b as int].bounds is None
            &&& close(
                symbols[a as int].x as int,
                symbols[a as int].y as int,
                symbols[b as int].x as int,
                symbols[b as int].y as int,
                tol,
            )
        },
        Overlap::Labels { .. } => false,
    }
}

/// The overlap is that of two labels of different nets at one place.
pub open spec fn is_label_overlap(labels: Seq<Label>, tol: int, found: Overlap) -> bool {
    match found {
        Overlap::Labels { a, b } => {
            &&& a < b < labels.len()
            &&& labels[a as int].net@ != labels[b as int].net@
            &&& close(
                labels[a as int].x as int,
                labels[a as int].y as int,
                labels[b as int].x as int,
                labels[b as int].y as int,
                tol,
            )
        },
        _ => false,
    }
}

/// Exactly the overlaps there are are reported, those of symbols first, and
/// exactly the symbols without a known rectangle are named as such.
pub proof fn law_every_overlap_is_reported(
    report: OverlapReport,
    symbols: Seq<PlacedSymbol>,
    labels: Seq<Label>,
    tol: int,
    found: Overlap,
)
    requires
        reports_overlaps(report, symbols, labels, tol),
        symbols.len() <= usize::MAX,
        labels.len() <= usize::MAX,
    ensures
        report.overlaps@.contains(found) <==> is_symbol_overlap(symbols, tol, found)
            || is_label_overlap(labels, tol, found),
        forall|p: int, q: int|
            0 <= p < q < report.overlaps@.len() && (#[trigger] report.overlaps@[p]) is Labels ==> (
            #[trigger] report.overlaps@[q]) is Labels,
        report.bounds_resolved + report.bounds_unresolved@.len() == symbols.len(),
{
    let a = symbol_overlaps(symbols, tol, symbols.len());
    let b = label_overlaps(labels, tol, labels.len());
    lemma_symbols(symbols, tol, symbols.len(), found);
    lemma_labels(labels, tol, labels.len(), found);
    lemma_either(a, b, found);
    assert forall|p: int, q: int|
        0 <= p < q < report.overlaps@.len() && (#[trigger] report.overlaps@[p]) is Labels implies (
    #[trigger] report.overlaps@[q]) is Labels by {
        let (x, y) = ((a + b)[p], (a + b)[q]);
        if q >= a.len() {
            lemma_labels(labels, tol, labels.len(), y);
            assert(b[q - a.len()] == y);
            assert(b.contains(y));
        } else {
            lemma_symbols(symbols, tol, symbols.len(), x);
            assert(a[p] == x);
            assert(a.contains(x));
        }
    }
}

proof fn lemma_either(a: Seq<Overlap>, b: Seq<Overlap>, x: Overlap)
    ensures
        (a + b).contains(x) <==> a.contains(x) || b.contains(x),
{
    let both = a + b;
    if a.contains(x) {
        assert(both[a.index_of(x)] == x);
    }
    if b.contains(x) {
        assert(both[a.len() + b.index_of(x)] == x);
    }
    if both.contains(x) {
        let i = both.index_of(x);
        if i < a.len() {
            assert(a[i] == x);
        } else {
            assert(b[i - a.len()] == x);
        }
    }
}

/// The first of the two that overlap.
spec fn first_of(found: Overlap) -> int {
    match found {
        Overlap::Geometry { a, .. } => a as int,
        Overlap::Origin { a, .. } => a as int,
        Overlap::Labels { a, .. } => a as int,
    }
}

/// The second of the two that overlap.
spec fn second_of(found: Overlap) -> int {
    match found {
        Overlap::Geometry { b, .. } => b as int,
        Overlap::Origin { b, .. } => b as int,
        Overlap::Labels { b, .. } => b as int,
    }
}

proof fn lemma_pair(symbols: Seq<PlacedSymbol>, tol: int, i: int, j: int, found: Overlap)
    requires
        0 <= i < j < symbols.len() <= usize::MAX,
    ensures
        symbol_overlap(symbols, tol, i, j).contains(found) <==> is_symbol_overlap(
            symbols,
            tol,
            found,
        ) && first_of(found) == i && second_of(found) == j,
{
    let own = symbol_overlap(symbols, tol, i, j);
    if own.len() > 0 {
        assert(own.contains(found) <==> own[0] == found) by {
            if own.contains(found) {
                assert(own[own.index_of(found)] == found);
            }
        }
    }
    match (symbols[i].bounds, symbols[j].bounds) {
        (Some(a), Some(b)) => {
            assert(overlap_x_of(a, b) == shared_x(a, b));
            assert(overlap_y_of(a, b) == shared_y(a, b));
        },
        _ => {},
    }
}

proof fn lemma_row(symbols: Seq<PlacedSymbol>, tol: int, i: int, m: int, found: Overlap)
    requires
        0 <= i < symbols.len() <= usize::MAX,
        m <= symbols.len(),
    ensures
        symbol_row(symbols, tol, i, m).contains(found) <==> is_symbol_overlap(symbols, tol, found)
            && first_of(found) == i && second_of(found) < m,
    decreases m - i,
{
    if m > i + 1 {
        lemma_row(symbols, tol, i, m - 1, found);
        lemma_pair(symbols, tol, i, m - 1, found);
        lemma_either(
            symbol_row(symbols, tol, i, m - 1),
            symbol_overlap(symbols, tol, i, m - 1),
            found,
        );
    }
}

proof fn lemma_symbols(symbols: Seq<PlacedSymbol>, tol: int, n: nat, found: Overlap)
    requires
        n <= symbols.len() <= usize::MAX,
    ensures
        symbol_overlaps(symbols, tol, n).contains(found) <==> is_symbol_overlap(
            symbols,
            tol,
            found,
        ) && first_of(found) < n,
    decreases n,
{
    if n > 0 {
        lemma_symbols(symbols, tol, (n - 1) as nat, found);
        lemma_row(symbols, tol, n - 1, symbols.len() as int, found);
        lemma_either(
            symbol_overlaps(symbols, tol, (n - 1) as nat),
            symbol_row(symbols, tol, n - 1, symbols.len() as int),
            found,
        );
    }
}

proof fn lemma_label_pair(labels: Seq<Label>, tol: int, i: int, j: int, found: Overlap)
    requires
        0 <= i < j < labels.len() <= usize::MAX,
    ensures
        label_overlap(labels, tol, i, j).contains(found) <==> is_label_overlap(labels, tol, found)
            && first_of(found) == i && second_of(found) == j,
{
    let own = label_overlap(labels, tol, i, j);
    if own.len() > 0 {
        assert(own.contains(found) <==> own[0] == found) by {
            if own.contains(found) {
                assert(own[own.index_of(found)] == found);
            }
        }
    }
}

proof fn lemma_label_row(labels: Seq<Label>, tol: int, i: int, m: int, found: Overlap)
    requires
        0 <= i < labels.len() <= usize::MAX,
        m <= labels.len(),
    ensures
        label_row(labels, tol, i, m).contains(found) <==> is_label_overlap(labels, tol, found)
            && first_of(found) == i && second_of(found) < m,
    decreases m - i,
{
    if m > i + 1 {
        lemma_label_row(labels, tol, i, m - 1, found);
        lemma_label_pair(labels, tol, i, m - 1, found);
        lemma_either(
            label_row(labels, tol, i, m - 1),
            label_overlap(labels, tol, i, m - 1),
            found,
        );
    }
}

proof fn lemma_labels(labels: Seq<Label>, tol: int, n: nat, found: Overlap)
    requires
        n <= labels.len() <= usize::MAX,
    ensures
        label_overlaps(labels, tol, n).contains(found) <==> is_label_overlap(labels, tol, found)
            && first_of(found) < n,
    decreases n,
{
    if n > 0 {
        lemma_labels(labels, tol, (n - 1) as nat, found);
        lemma_label_row(labels, tol, n - 1, labels.len() as int, found);
        lemma_either(
            label_overlaps(labels, tol, (n - 1) as nat),
            label_row(labels, tol, n - 1, labels.len() as int),
            found,
        );
    }
}

/// The pins of a component as a report shows them.
pub open spec fn shown_pins(component: PlacedComponent) -> Seq<ConnectionView> {
    component.pins@.map_values(
        |own: ComponentPin|
            ConnectionView::ComponentPin {
                reference: component.reference@,
                pin: own.pin.number@,
                pin_name: own.pin.name@,
                x: own.x,
                y: own.y,
            },
    )
}

/// The connections of a sheet are all the pins of its components, but for those
/// of power symbols, and all of its sheet pins.
pub proof fn law_every_pin_is_a_connection(items: SheetItems, components: Seq<PlacedComponent>)
    ensures
        all_connections(items, components) == components.filter(
            |c: PlacedComponent| !c.is_power,
        ).map_values(|c: PlacedComponent| shown_pins(c)).flatten_alt()
            + items.sheet_pins@.map_values(
            |place: (i64, i64)| ConnectionView::SheetPin { x: place.0, y: place.1 },
        ),
{
    lemma_connections(components, components.len());
    assert(components.take(components.len() as int) =~= components);
    assert(all_connections(items, components) =~= component_connections(
        components,
        components.len(),
    ) + items.sheet_pins@.map_values(
        |place: (i64, i64)| ConnectionView::SheetPin { x: place.0, y: place.1 },
    ));
}

proof fn lemma_pin_connections(component: PlacedComponent, n: nat)
    requires
        n <= component.pins@.len(),
    ensures
        pin_connections(component, n) == shown_pins(component).take(n as int),
    decreases n,
{
    if n > 0 {
        lemma_pin_connections(component, (n - 1) as nat);
    }
    assert(pin_connections(component, n) =~= shown_pins(component).take(n as int));
}

proof fn lemma_connections(components: Seq<PlacedComponent>, n: nat)
    requires
        n <= components.len(),
    ensures
        component_connections(components, n) == components.take(n as int).filter(
            |c: PlacedComponent| !c.is_power,
        ).map_values(|c: PlacedComponent| shown_pins(c)).flatten_alt(),
    decreases n,
{
    reveal(Seq::filter);
    let kept = |c: PlacedComponent| !c.is_power;
    let shown = |c: PlacedComponent| shown_pins(c);
    let head = components.take(n as int);
    if n > 0 {
        lemma_connections(components, (n - 1) as nat);
        let before = components.take(n - 1);
        assert(head.drop_last() =~= before);
        assert(head.last() == components[n - 1]);
        lemma_pin_connections(components[n - 1], components[n - 1].pins@.len());
        assert(shown_pins(components[n - 1]).take(components[n - 1].pins@.len() as int)
            =~= shown_pins(components[n - 1]));
        if kept(head.last()) {
            let all = before.filter(kept).push(head.last()).map_values(shown);
            assert(all.drop_last() =~= before.filter(kept).map_values(shown));
            assert(all.last() == shown_pins(head.last()));
        }
    } else {
        assert(head.filter(kept).map_values(shown) =~= Seq::empty());
    }
}

/// Where a connection is.
pub open spec fn place_of(connection: ConnectionView) -> (i64, i64) {
    match connection {
        ConnectionView::ComponentPin { x, y, .. } => (x, y),
        ConnectionView::SheetPin { x, y } => (x, y),
    }
}

/// The names of a sheet are those of its labels, of every kind.
pub proof fn law_every_label_names_a_net(labels: Seq<Label>, net: Seq<char>)
    ensures
        all_names(labels).contains(net) <==> exists|l: int|
            0 <= l < labels.len() && (#[trigger] labels[l]).net@ == net,
{
}

/// A label of this name is joined to the place.
pub open spec fn name_reaches(items: SheetItems, net: Seq<char>, place: (i64, i64)) -> bool {
    exists|l: int|
        0 <= l < items.labels@.len() && (#[trigger] items.labels@[l]).net@ == net && same_net(
            items,
            micro(items.labels@[l].x as int, items.labels@[l].y as int),
            micro(place.0 as int, place.1 as int),
        )
}

/// A net reaches exactly the connections that a label of its name is joined to,
/// and has as many labels as bear its name.
pub proof fn law_a_net_reaches_what_its_labels_join(
    items: SheetItems,
    connections: Seq<ConnectionView>,
    net: Seq<char>,
)
    ensures
        reached(items, connections, net, connections.len()) == connections.filter(
            |c: ConnectionView| name_reaches(items, net, place_of(c)),
        ),
        label_count(items.labels@, net, items.labels@.len()) == items.labels@.filter(
            |l: Label| l.net@ == net,
        ).len(),
{
    lemma_reached(items, connections, net, connections.len());
    assert(connections.take(connections.len() as int) =~= connections);
    lemma_label_count(items.labels@, net, items.labels@.len());
    assert(items.labels@.take(items.labels@.len() as int) =~= items.labels@);
}

proof fn lemma_reached(
    items: SheetItems,
    connections: Seq<ConnectionView>,
    net: Seq<char>,
    n: nat,
)
    requires
        n <= connections.len(),
    ensures
        reached(items, connections, net, n) == connections.take(n as int).filter(
            |c: ConnectionView| name_reaches(items, net, place_of(c)),
        ),
    decreases n,
{
    reveal(Seq::filter);
    if n > 0 {
        lemma_reached(items, connections, net, (n - 1) as nat);
        assert(connections.take(n as int).drop_last() =~= connections.take(n - 1));
        let place = connections[n - 1].place();
        assert(reaches(items, net, place) == name_reaches(items, net, place)) by {
            if reaches(items, net, place) {
                let j = choose|j: int|
                    0 <= j < items.labels@.len() && (#[trigger] items.labels@[j]).net@ == net
                        && same_net(
                        items,
                        crate::sheet_reports::label_node(items.labels@[j]),
                        crate::connectivity::node_at(place),
                    );
                assert(items.labels@[j].net@ == net);
            }
        }
    }
}

proof fn lemma_label_count(labels: Seq<Label>, net: Seq<char>, n: nat)
    requires
        n <= labels.len(),
    ensures
        label_count(labels, net, n) == labels.take(n as int).filter(
            |l: Label| l.net@ == net,
        ).len(),
    decreases n,
{
    reveal(Seq::filter);
    if n > 0 {
        lemma_label_count(labels, net, (n - 1) as nat);
        assert(labels.take(n as int).drop_last() =~= labels.take(n - 1));
    }
}

/// Of the names exactly those are lonely whose nets reach no two connections, in
/// order.
pub proof fn law_lonely_nets_reach_at_most_one(
    items: SheetItems,
    connections: Seq<ConnectionView>,
    names: Seq<Seq<char>>,
)
    ensures
        lonely(items, connections, names, names.len()) == names.filter(
            |net: Seq<char>|
                connections.filter(
                    |c: ConnectionView| name_reaches(items, net, place_of(c)),
                ).len() < 2,
        ),
{
    lemma_lonely(items, connections, names, names.len());
    assert(names.take(names.len() as int) =~= names);
}

proof fn lemma_lonely(
    items: SheetItems,
    connections: Seq<ConnectionView>,
    names: Seq<Seq<char>>,
    n: nat,
)
    requires
        n <= names.len(),
    ensures
        lonely(items, connections, names, n) == names.take(n as int).filter(
            |net: Seq<char>|
                connections.filter(
                    |c: ConnectionView| name_reaches(items, net, place_of(c)),
                ).len() < 2,
        ),
    decreases n,
{
    reveal(Seq::filter);
    if n > 0 {
        lemma_lonely(items, connections, names, (n - 1) as nat);
        assert(names.take(n as int).drop_last() =~= names.take(n - 1));
        law_a_net_reaches_what_its_labels_join(items, connections, names[n - 1]);
    }
}

/// A net has the kinds of its labels, each once. Only a local label keeps its
/// net on the sheet.
pub proof fn law_a_net_has_the_kinds_of_its_labels(
    labels: Seq<Label>,
    net: Seq<char>,
    kind: LabelKind,
)
    ensures
        kinds_of(labels, net).contains(kind) <==> exists|l: int|
            0 <= l < labels.len() && (#[trigger] labels[l]).net@ == net && labels[l].kind == kind,
        kinds_of(labels, net).no_duplicates(),
        may_leave_sheet(labels, net) <==> exists|l: int|
            0 <= l < labels.len() && (#[trigger] labels[l]).net@ == net && !(labels[l].kind
                is NetLabel),
{
    let a = one_kind(labels, net, LabelKind::GlobalLabel);
    let b = one_kind(labels, net, LabelKind::HierarchicalLabel);
    let c = one_kind(labels, net, LabelKind::NetLabel);
    let d = one_kind(labels, net, LabelKind::PowerSymbol);
    let all = kinds_of(labels, net);
    assert(all == a + b + c + d);
    if has_kind(labels, net, kind) {
        match kind {
            LabelKind::GlobalLabel => {
                assert(all[0] == kind);
            },
            LabelKind::HierarchicalLabel => {
                assert(all[a.len() as int] == kind);
            },
            LabelKind::NetLabel => {
                assert(all[(a + b).len() as int] == kind);
            },
            LabelKind::PowerSymbol => {
                assert(all[(a + b + c).len() as int] == kind);
            },
        }
    }
    if all.contains(kind) {
        let q = all.index_of(kind);
        assert(has_kind(labels, net, all[q]));
    }
    if may_leave_sheet(labels, net) {
        let l = choose|l: int|
            0 <= l < labels.len() && (#[trigger] labels[l]).net@ == net && leaves_sheet(
                labels[l].kind,
            );
        assert(!(labels[l].kind is NetLabel));
    }
    if exists|l: int|
        0 <= l < labels.len() && (#[trigger] labels[l]).net@ == net && !(labels[l].kind
            is NetLabel) {
        let l = choose|l: int|
            0 <= l < labels.len() && (#[trigger] labels[l]).net@ == net && !(labels[l].kind
                is NetLabel);
        assert(leaves_sheet(labels[l].kind));
    }
}

/// What is told of a net: it may leave the sheet exactly if one of its labels
/// is more than a local one, and it stands where its first label does.
#[verifier::spinoff_prover]
pub proof fn law_a_report_tells_of_its_labels(
    items: SheetItems,
    connections: Seq<ConnectionView>,
    net: Seq<char>,
    report: SinglePinNet,
)
    requires
        reports(items, connections, net, report),
    ensures
        report.net@ == net,
        report.cross_sheet_unverified <==> exists|j: int| #[trigger]
            goes_beyond(items.labels@, net, j),
        report.label_count == items.labels@.filter(|l: Label| l.net@ == net).len(),
        forall|i: int| #[trigger]
            names_first(items.labels@, net, i) ==> report.x == items.labels@[i].x && report.y
                == items.labels@[i].y && report.kind == items.labels@[i].kind,
        connection_views(report.pins@) == connections.filter(
            |c: ConnectionView| name_reaches(items, net, place_of(c)),
        ),
{
    lemma_report_counts(items, connections, net, report);
    lemma_report_stands(items, connections, net, report);
}

proof fn lemma_report_counts(
    items: SheetItems,
    connections: Seq<ConnectionView>,
    net: Seq<char>,
    report: SinglePinNet,
)
    requires
        reports(items, connections, net, report),
    ensures
        report.label_count == items.labels@.filter(|l: Label| l.net@ == net).len(),
        connection_views(report.pins@) == connections.filter(
            |c: ConnectionView| name_reaches(items, net, place_of(c)),
        ),
{
    let labels = items.labels@;
    lemma_label_count(labels, net, labels.len());
    assert(labels.take(labels.len() as int) =~= labels);
    lemma_reached(items, connections, net, connections.len());
    assert(connections.take(connections.len() as int) =~= connections);
}

proof fn lemma_report_stands(
    items: SheetItems,
    connections: Seq<ConnectionView>,
    net: Seq<char>,
    report: SinglePinNet,
)
    requires
        reports(items, connections, net, report),
    ensures
        report.cross_sheet_unverified <==> exists|j: int| #[trigger]
            goes_beyond(items.labels@, net, j),
        forall|i: int| #[trigger]
            names_first(items.labels@, net, i) ==> report.x == items.labels@[i].x && report.y
                == items.labels@[i].y && report.kind == items.labels@[i].kind,
{
    let labels = items.labels@;
    assert(report.cross_sheet_unverified == may_leave_sheet(labels, net));
    lemma_beyond(labels, net);
    let f = choose|f: int| #[trigger]
        is_first_label(labels, net, f) && report.x == labels[f].x && report.y == labels[f].y
            && report.kind == labels[f].kind;
    assert forall|i: int| #[trigger] names_first(labels, net, i) implies i == f by {
        lemma_one_first(labels, net, f, i);
    }
}

/// The label has this name, and none before it does.
pub open spec fn names_first(labels: Seq<Label>, net: Seq<char>, i: int) -> bool {
    &&& 0 <= i < labels.len()
    &&& labels[i].net@ == net
    &&& forall|j: int| 0 <= j < i ==> (#[trigger] labels[j]).net@ != net
}

/// The label has this name and is more than a local one.
pub open spec fn goes_beyond(labels: Seq<Label>, net: Seq<char>, j: int) -> bool {
    0 <= j < labels.len() && labels[j].net@ == net && labels[j].kind != LabelKind::NetLabel
}

proof fn lemma_one_first(labels: Seq<Label>, net: Seq<char>, f: int, i: int)
    requires
        is_first_label(labels, net, f),
        names_first(labels, net, i),
    ensures
        i == f,
{
    if i < f {
        assert(labels[i].net@ != net);
    } else if f < i {
        assert(labels[f].net@ != net);
    }
}

proof fn lemma_beyond(labels: Seq<Label>, net: Seq<char>)
    ensures
        may_leave_sheet(labels, net) <==> exists|j: int| #[trigger] goes_beyond(labels, net, j),
{
    if may_leave_sheet(labels, net) {
        let j = choose|j: int|
            0 <= j < labels.len() && (#[trigger] labels[j]).net@ == net && leaves_sheet(
                labels[j].kind,
            );
        assert(goes_beyond(labels, net, j));
    }
    if exists|j: int| #[trigger] goes_beyond(labels, net, j) {
        let j = choose|j: int| #[trigger] goes_beyond(labels, net, j);
        assert(labels[j].net@ == net && leaves_sheet(labels[j].kind));
    }
}

} // verus!
