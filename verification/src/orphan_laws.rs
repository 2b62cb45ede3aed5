//! What is reported as connected to nothing, told from the places of everything
//! on the sheet.

use crate::connectivity::{
    drawn_labels, floating_end, floating_ends, near, pin_places, terminated, wire_ends, PlacedPin,
    SheetItems,
};
use crate::geometry::{coincident, Label, LabelKind, Wire};
use crate::geometry_laws::{close, law_places_on_a_wire_lie_on_it, lies_on};
use crate::lists::positions_where;
use crate::point_index::{count_near, law_count_near_finds};
use crate::sheet_reports::{
    dangling_ends, floating_labels, floats, orphans, unconnected, unconnected_pins, OrphanView,
};
use vstd::prelude::*;
use vstd::string::*;

verus! {

/// One of these places is close.
pub open spec fn one_is_close(places: Seq<(i64, i64)>, x: i64, y: i64, tol: int) -> bool {
    exists|i: int|
        0 <= i < places.len() && close(
            x as int,
            y as int,
            (#[trigger] places[i]).0 as int,
            places[i].1 as int,
            tol,
        )
}

/// A pin other than this one is close. With `-1` any pin is.
pub open spec fn other_pin_is_close(
    pins: Seq<PlacedPin>,
    own: int,
    x: i64,
    y: i64,
    tol: int,
) -> bool {
    exists|i: int|
        0 <= i < pins.len() && i != own && close(
            x as int,
            y as int,
            (#[trigger] pins[i]).x as int,
            pins[i].y as int,
            tol,
        )
}

/// A label that is drawn, and no power symbol, is close.
pub open spec fn drawn_label_is_close(labels: Seq<Label>, x: i64, y: i64, tol: int) -> bool {
    exists|i: int|
        0 <= i < labels.len() && (#[trigger] labels[i]).kind != LabelKind::PowerSymbol && close(
            x as int,
            y as int,
            labels[i].x as int,
            labels[i].y as int,
            tol,
        )
}

/// The place of the end of a wire: ends are counted through, two to a wire.
pub open spec fn end_place(wires: Seq<Wire>, e: int) -> (i64, i64) {
    if e % 2 == 0 {
        (wires[e / 2].x1, wires[e / 2].y1)
    } else {
        (wires[e / 2].x2, wires[e / 2].y2)
    }
}

/// A wire end other than this one is close. With `-1` any end is.
pub open spec fn other_end_is_close(
    wires: Seq<Wire>,
    own: int,
    x: i64,
    y: i64,
    tol: int,
) -> bool {
    exists|e: int|
        0 <= e < 2 * wires.len() && e != own && close(
            x as int,
            y as int,
            (#[trigger] end_place(wires, e)).0 as int,
            end_place(wires, e).1 as int,
            tol,
        )
}

/// A wire passes through the place.
pub open spec fn wire_passes(wires: Seq<Wire>, x: i64, y: i64, tol: int) -> bool {
    exists|w: int|
        0 <= w < wires.len() && lies_on(#[trigger] wires[w], x as int, y as int, tol)
}

/// A wire passes through the place and has no end there.
pub open spec fn wire_passes_within(wires: Seq<Wire>, x: i64, y: i64, tol: int) -> bool {
    exists|w: int|
        0 <= w < wires.len() && lies_on(#[trigger] wires[w], x as int, y as int, tol) && !close(
            x as int,
            y as int,
            wires[w].x1 as int,
            wires[w].y1 as int,
            tol,
        ) && !close(x as int, y as int, wires[w].x2 as int, wires[w].y2 as int, tol)
}

/// Pin `i` is meant to be connected and nothing is at it: no flag, no wire end,
/// no drawn label, no sheet pin, no other pin, and no junction on a wire. Of
/// the sorts of pins only `no_connect` is not meant to be connected.
pub open spec fn pin_is_loose(items: SheetItems, i: int, tol: int) -> bool {
    let pin = items.placed_pins@[i];
    &&& pin.pin.electrical_type@ != "no_connect"@
    &&& !one_is_close(items.no_connects@, pin.x, pin.y, tol)
    &&& !other_end_is_close(items.wires@, -1, pin.x, pin.y, tol)
    &&& !drawn_label_is_close(items.labels@, pin.x, pin.y, tol)
    &&& !one_is_close(items.sheet_pins@, pin.x, pin.y, tol)
    &&& !other_pin_is_close(items.placed_pins@, i, pin.x, pin.y, tol)
    &&& !(one_is_close(items.junctions@, pin.x, pin.y, tol) && wire_passes(
        items.wires@,
        pin.x,
        pin.y,
        tol,
    ))
}

/// Label `i` is drawn, and neither a wire nor a pin is at it.
pub open spec fn label_is_loose(items: SheetItems, i: int, tol: int) -> bool {
    let label = items.labels@[i];
    &&& label.kind != LabelKind::PowerSymbol
    &&& !wire_passes(items.wires@, label.x, label.y, tol)
    &&& !other_pin_is_close(items.placed_pins@, -1, label.x, label.y, tol)
}

/// Nothing is at end `e`: no pin, no drawn label, no sheet pin, no junction, no
/// flag, no other wire end, and no wire that passes through.
pub open spec fn end_is_loose(items: SheetItems, e: int, tol: int) -> bool {
    let place = end_place(items.wires@, e);
    &&& !other_pin_is_close(items.placed_pins@, -1, place.0, place.1, tol)
    &&& !drawn_label_is_close(items.labels@, place.0, place.1, tol)
    &&& !one_is_close(items.sheet_pins@, place.0, place.1, tol)
    &&& !one_is_close(items.junctions@, place.0, place.1, tol)
    &&& !one_is_close(items.no_connects@, place.0, place.1, tol)
    &&& !other_end_is_close(items.wires@, e, place.0, place.1, tol)
    &&& !wire_passes_within(items.wires@, place.0, place.1, tol)
}

/// Exactly the loose wire ends, the loose labels and the loose pins are
/// reported, each once, in this order and in the order of the file.
pub proof fn law_what_is_loose_is_reported(items: SheetItems, tol: int)
    requires
        tol > 0,
    ensures
        orphans(items, tol) == positions_where(
            |e: int| end_is_loose(items, e, tol),
            2 * items.wires@.len(),
        ).map_values(
            |e: int|
                OrphanView::DanglingWireEnd {
                    x: end_place(items.wires@, e).0,
                    y: end_place(items.wires@, e).1,
                    wire_uuid: items.wires@[e / 2].uuid,
                },
        ) + positions_where(
            |i: int| label_is_loose(items, i, tol),
            items.labels@.len(),
        ).map_values(
            |i: int|
                OrphanView::FloatingLabel {
                    net: items.labels@[i].net@,
                    x: items.labels@[i].x,
                    y: items.labels@[i].y,
                },
        ) + positions_where(
            |i: int| pin_is_loose(items, i, tol),
            items.placed_pins@.len(),
        ).map_values(
            |i: int|
                OrphanView::UnconnectedPin {
                    reference: items.placed_pins@[i].reference@,
                    pin: items.placed_pins@[i].pin.number@,
                    pin_name: items.placed_pins@[i].pin.name@,
                    x: items.placed_pins@[i].x,
                    y: items.placed_pins@[i].y,
                },
        ),
{
    lemma_ends(items, tol, items.wires@.len());
    lemma_labels(items, tol, items.labels@.len());
    lemma_pins(items, tol, items.placed_pins@.len());
    let ends = floating_ends(items, tol, items.wires@.len());
    let listed = positions_where(
        |e: int| end_is_loose(items, e, tol),
        2 * items.wires@.len(),
    );
    assert(dangling_ends(items, tol) =~= listed.map_values(
        |e: int|
            OrphanView::DanglingWireEnd {
                x: end_place(items.wires@, e).0,
                y: end_place(items.wires@, e).1,
                wire_uuid: items.wires@[e / 2].uuid,
            },
    )) by {
        assert forall|k: int| 0 <= k < listed.len() implies ends[k] == (
            end_place(items.wires@, #[trigger] listed[k]).0,
            end_place(items.wires@, listed[k]).1,
            items.wires@[listed[k] / 2].uuid,
        ) by {
            assert(listed.map_values(
                |e: int|
                    (
                        end_place(items.wires@, e).0,
                        end_place(items.wires@, e).1,
                        items.wires@[e / 2].uuid,
                    ),
            )[k] == ends[k]);
        }
    }
}

proof fn lemma_near(places: Seq<(i64, i64)>, x: i64, y: i64, tol: int)
    ensures
        near(places, x as int, y as int, tol) == one_is_close(places, x, y, tol),
{
    law_count_near_finds(places, x as int, y as int, tol);
    if near(places, x as int, y as int, tol) {
        let i = choose|i: int|
            0 <= i < places.len() && coincident(
                x as int,
                y as int,
                (#[trigger] places[i]).0 as int,
                places[i].1 as int,
                tol,
            );
        assert(close(x as int, y as int, places[i].0 as int, places[i].1 as int, tol));
    }
    if one_is_close(places, x, y, tol) {
        let i = choose|i: int|
            0 <= i < places.len() && close(
                x as int,
                y as int,
                (#[trigger] places[i]).0 as int,
                places[i].1 as int,
                tol,
            );
        assert(coincident(x as int, y as int, places[i].0 as int, places[i].1 as int, tol));
    }
}

/// Two places are close exactly if one is close besides a place that is.
proof fn lemma_two_near(places: Seq<(i64, i64)>, own: int, x: i64, y: i64, tol: int)
    requires
        0 <= own < places.len(),
        close(x as int, y as int, places[own].0 as int, places[own].1 as int, tol),
    ensures
        (count_near(places, x as int, y as int, tol) >= 2) == (exists|i: int|
            0 <= i < places.len() && i != own && close(
                x as int,
                y as int,
                (#[trigger] places[i]).0 as int,
                places[i].1 as int,
                tol,
            )),
    decreases places.len(),
{
    let rest = places.drop_last();
    let last = places.len() - 1;
    let is_close = |i: int|
        close(x as int, y as int, places[i].0 as int, places[i].1 as int, tol);
    lemma_near(rest, x, y, tol);
    assert forall|i: int| 0 <= i < rest.len() implies #[trigger] rest[i] == places[i] by {}
    if own == last {
        if one_is_close(rest, x, y, tol) {
            let i = choose|i: int|
                0 <= i < rest.len() && close(
                    x as int,
                    y as int,
                    (#[trigger] rest[i]).0 as int,
                    rest[i].1 as int,
                    tol,
                );
            assert(places[i] == rest[i]);
        }
        if exists|i: int|
            0 <= i < places.len() && i != own && close(
                x as int,
                y as int,
                (#[trigger] places[i]).0 as int,
                places[i].1 as int,
                tol,
            ) {
            let i = choose|i: int|
                0 <= i < places.len() && i != own && close(
                    x as int,
                    y as int,
                    (#[trigger] places[i]).0 as int,
                    places[i].1 as int,
                    tol,
                );
            assert(rest[i] == places[i]);
        }
    } else {
        lemma_two_near(rest, own, x, y, tol);
        assert(one_is_close(rest, x, y, tol)) by {
            assert(rest[own] == places[own]);
        }
        if is_close(last) {
            assert(places[last] == places.last());
        }
        if exists|i: int|
            0 <= i < places.len() && i != own && close(
                x as int,
                y as int,
                (#[trigger] places[i]).0 as int,
                places[i].1 as int,
                tol,
            ) {
            let i = choose|i: int|
                0 <= i < places.len() && i != own && close(
                    x as int,
                    y as int,
                    (#[trigger] places[i]).0 as int,
                    places[i].1 as int,
                    tol,
                );
            if i < last {
                assert(rest[i] == places[i]);
            }
        }
        if exists|i: int|
            0 <= i < rest.len() && i != own && close(
                x as int,
                y as int,
                (#[trigger] rest[i]).0 as int,
                rest[i].1 as int,
                tol,
            ) {
            let i = choose|i: int|
                0 <= i < rest.len() && i != own && close(
                    x as int,
                    y as int,
                    (#[trigger] rest[i]).0 as int,
                    rest[i].1 as int,
                    tol,
                );
            assert(places[i] == rest[i]);
        }
    }
}

proof fn lemma_wire_ends(wires: Seq<Wire>)
    ensures
        wire_ends(wires).len() == 2 * wires.len(),
        forall|e: int|
            0 <= e < 2 * wires.len() ==> #[trigger] wire_ends(wires)[e] == end_place(wires, e),
    decreases wires.len(),
{
    if wires.len() > 0 {
        let rest = wires.drop_last();
        lemma_wire_ends(rest);
        assert forall|e: int| 0 <= e < 2 * wires.len() implies #[trigger] wire_ends(wires)[e]
            == end_place(wires, e) by {
            if e < 2 * rest.len() {
                assert(wire_ends(wires)[e] == wire_ends(rest)[e]);
                assert(rest[e / 2] == wires[e / 2]);
            } else {
                assert(e / 2 == wires.len() - 1);
            }
        }
    }
}

proof fn lemma_ends_close(wires: Seq<Wire>, x: i64, y: i64, tol: int)
    ensures
        near(wire_ends(wires), x as int, y as int, tol) == other_end_is_close(
            wires,
            -1,
            x,
            y,
            tol,
        ),
{
    let ends = wire_ends(wires);
    lemma_wire_ends(wires);
    lemma_near(ends, x, y, tol);
    if one_is_close(ends, x, y, tol) {
        let i = choose|i: int|
            0 <= i < ends.len() && close(
                x as int,
                y as int,
                (#[trigger] ends[i]).0 as int,
                ends[i].1 as int,
                tol,
            );
        assert(ends[i] == end_place(wires, i));
    }
    if other_end_is_close(wires, -1, x, y, tol) {
        let e = choose|e: int|
            0 <= e < 2 * wires.len() && e != -1 && close(
                x as int,
                y as int,
                (#[trigger] end_place(wires, e)).0 as int,
                end_place(wires, e).1 as int,
                tol,
            );
        assert(ends[e] == end_place(wires, e));
    }
}

proof fn lemma_other_ends(wires: Seq<Wire>, own: int, tol: int)
    requires
        tol > 0,
        0 <= own < 2 * wires.len(),
    ensures
        ({
            let place = end_place(wires, own);
            (count_near(wire_ends(wires), place.0 as int, place.1 as int, tol) >= 2)
                == other_end_is_close(wires, own, place.0, place.1, tol)
        }),
{
    let ends = wire_ends(wires);
    let place = end_place(wires, own);
    lemma_wire_ends(wires);
    assert(ends[own] == place);
    lemma_two_near(ends, own, place.0, place.1, tol);
    if exists|i: int|
        0 <= i < ends.len() && i != own && close(
            place.0 as int,
            place.1 as int,
            (#[trigger] ends[i]).0 as int,
            ends[i].1 as int,
            tol,
        ) {
        let i = choose|i: int|
            0 <= i < ends.len() && i != own && close(
                place.0 as int,
                place.1 as int,
                (#[trigger] ends[i]).0 as int,
                ends[i].1 as int,
                tol,
            );
        assert(ends[i] == end_place(wires, i));
    }
    if other_end_is_close(wires, own, place.0, place.1, tol) {
        let e = choose|e: int|
            0 <= e < 2 * wires.len() && e != own && close(
                place.0 as int,
                place.1 as int,
                (#[trigger] end_place(wires, e)).0 as int,
                end_place(wires, e).1 as int,
                tol,
            );
        assert(ends[e] == end_place(wires, e));
    }
}

proof fn lemma_drawn(labels: Seq<Label>, x: i64, y: i64, tol: int)
    ensures
        near(drawn_labels(labels), x as int, y as int, tol) == drawn_label_is_close(
            labels,
            x,
            y,
            tol,
        ),
    decreases labels.len(),
{
    if labels.len() > 0 {
        let rest = labels.drop_last();
        let last = labels.last();
        lemma_drawn(rest, x, y, tol);
        assert(labels[labels.len() - 1] == last);
        if last.kind != LabelKind::PowerSymbol {
            assert(drawn_labels(labels).drop_last() =~= drawn_labels(rest));
        }
        if drawn_label_is_close(rest, x, y, tol) {
            let i = choose|i: int|
                0 <= i < rest.len() && (#[trigger] rest[i]).kind != LabelKind::PowerSymbol
                    && close(x as int, y as int, rest[i].x as int, rest[i].y as int, tol);
            assert(labels[i] == rest[i]);
        }
        if drawn_label_is_close(labels, x, y, tol) {
            let i = choose|i: int|
                0 <= i < labels.len() && (#[trigger] labels[i]).kind != LabelKind::PowerSymbol
                    && close(x as int, y as int, labels[i].x as int, labels[i].y as int, tol);
            if i < rest.len() {
                assert(rest[i] == labels[i]);
            }
        }
    }
}

proof fn lemma_pins_close(pins: Seq<PlacedPin>, x: i64, y: i64, tol: int)
    ensures
        near(pin_places(pins), x as int, y as int, tol) == other_pin_is_close(
            pins,
            -1,
            x,
            y,
            tol,
        ),
{
    let places = pin_places(pins);
    lemma_near(places, x, y, tol);
    if one_is_close(places, x, y, tol) {
        let i = choose|i: int|
            0 <= i < places.len() && close(
                x as int,
                y as int,
                (#[trigger] places[i]).0 as int,
                places[i].1 as int,
                tol,
            );
        assert(pins[i].x == places[i].0);
    }
    if other_pin_is_close(pins, -1, x, y, tol) {
        let i = choose|i: int|
            0 <= i < pins.len() && i != -1 && close(
                x as int,
                y as int,
                (#[trigger] pins[i]).x as int,
                pins[i].y as int,
                tol,
            );
        assert(places[i] == (pins[i].x, pins[i].y));
    }
}

proof fn lemma_other_pins(pins: Seq<PlacedPin>, own: int, tol: int)
    requires
        tol > 0,
        0 <= own < pins.len(),
    ensures
        (count_near(pin_places(pins), pins[own].x as int, pins[own].y as int, tol) >= 2)
            == other_pin_is_close(pins, own, pins[own].x, pins[own].y, tol),
{
    let places = pin_places(pins);
    let (x, y) = (pins[own].x, pins[own].y);
    assert(places[own] == (x, y));
    lemma_two_near(places, own, x, y, tol);
    if exists|i: int|
        0 <= i < places.len() && i != own && close(
            x as int,
            y as int,
            (#[trigger] places[i]).0 as int,
            places[i].1 as int,
            tol,
        ) {
        let i = choose|i: int|
            0 <= i < places.len() && i != own && close(
                x as int,
                y as int,
                (#[trigger] places[i]).0 as int,
                places[i].1 as int,
                tol,
            );
        assert(pins[i].x == places[i].0);
    }
    if other_pin_is_close(pins, own, x, y, tol) {
        let i = choose|i: int|
            0 <= i < pins.len() && i != own && close(
                x as int,
                y as int,
                (#[trigger] pins[i]).x as int,
                pins[i].y as int,
                tol,
            );
        assert(places[i] == (pins[i].x, pins[i].y));
    }
}

proof fn lemma_wires_pass(wires: Seq<Wire>, x: i64, y: i64, tol: int)
    ensures
        crate::connectivity::on_some_wire(wires, x as int, y as int, tol) == wire_passes(
            wires,
            x,
            y,
            tol,
        ),
        crate::connectivity::on_some_interior(wires, x as int, y as int, tol)
            == wire_passes_within(wires, x, y, tol),
{
    assert forall|w: int| 0 <= w < wires.len() implies crate::geometry::on_wire(
        #[trigger] wires[w],
        x as int,
        y as int,
        tol,
    ) == lies_on(wires[w], x as int, y as int, tol) && crate::geometry::on_interior(
        wires[w],
        x as int,
        y as int,
        tol,
    ) == (lies_on(wires[w], x as int, y as int, tol) && !close(
        x as int,
        y as int,
        wires[w].x1 as int,
        wires[w].y1 as int,
        tol,
    ) && !close(x as int, y as int, wires[w].x2 as int, wires[w].y2 as int, tol)) by {
        law_places_on_a_wire_lie_on_it(wires[w], x as int, y as int, tol);
    }
}

proof fn lemma_pin(items: SheetItems, i: int, tol: int)
    requires
        tol > 0,
        0 <= i < items.placed_pins@.len(),
    ensures
        unconnected(items, items.placed_pins@[i], tol) == pin_is_loose(items, i, tol),
{
    let pin = items.placed_pins@[i];
    lemma_near(items.no_connects@, pin.x, pin.y, tol);
    lemma_ends_close(items.wires@, pin.x, pin.y, tol);
    lemma_drawn(items.labels@, pin.x, pin.y, tol);
    lemma_near(items.sheet_pins@, pin.x, pin.y, tol);
    lemma_other_pins(items.placed_pins@, i, tol);
    lemma_near(items.junctions@, pin.x, pin.y, tol);
    lemma_wires_pass(items.wires@, pin.x, pin.y, tol);
}

proof fn lemma_label(items: SheetItems, i: int, tol: int)
    requires
        0 <= i < items.labels@.len(),
    ensures
        floats(items, items.labels@[i], tol) == label_is_loose(items, i, tol),
{
    let label = items.labels@[i];
    lemma_wires_pass(items.wires@, label.x, label.y, tol);
    lemma_pins_close(items.placed_pins@, label.x, label.y, tol);
}

proof fn lemma_end(items: SheetItems, e: int, tol: int)
    requires
        tol > 0,
        0 <= e < 2 * items.wires@.len(),
    ensures
        ({
            let place = end_place(items.wires@, e);
            terminated(items, place.0 as int, place.1 as int, tol) == !end_is_loose(items, e, tol)
        }),
{
    let place = end_place(items.wires@, e);
    lemma_pins_close(items.placed_pins@, place.0, place.1, tol);
    lemma_drawn(items.labels@, place.0, place.1, tol);
    lemma_near(items.sheet_pins@, place.0, place.1, tol);
    lemma_near(items.junctions@, place.0, place.1, tol);
    lemma_near(items.no_connects@, place.0, place.1, tol);
    lemma_other_ends(items.wires@, e, tol);
    lemma_wires_pass(items.wires@, place.0, place.1, tol);
}

proof fn lemma_pins(items: SheetItems, tol: int, n: nat)
    requires
        tol > 0,
        n <= items.placed_pins@.len(),
    ensures
        unconnected_pins(items, tol, n) == positions_where(
            |i: int| pin_is_loose(items, i, tol),
            n,
        ).map_values(
            |i: int|
                OrphanView::UnconnectedPin {
                    reference: items.placed_pins@[i].reference@,
                    pin: items.placed_pins@[i].pin.number@,
                    pin_name: items.placed_pins@[i].pin.name@,
                    x: items.placed_pins@[i].x,
                    y: items.placed_pins@[i].y,
                },
        ),
    decreases n,
{
    if n > 0 {
        lemma_pins(items, tol, (n - 1) as nat);
        lemma_pin(items, n - 1, tol);
    }
    assert(unconnected_pins(items, tol, n) =~= positions_where(
        |i: int| pin_is_loose(items, i, tol),
        n,
    ).map_values(
        |i: int|
            OrphanView::UnconnectedPin {
                reference: items.placed_pins@[i].reference@,
                pin: items.placed_pins@[i].pin.number@,
                pin_name: items.placed_pins@[i].pin.name@,
                x: items.placed_pins@[i].x,
                y: items.placed_pins@[i].y,
            },
    ));
}

proof fn lemma_labels(items: SheetItems, tol: int, n: nat)
    requires
        n <= items.labels@.len(),
    ensures
        floating_labels(items, tol, n) == positions_where(
            |i: int| label_is_loose(items, i, tol),
            n,
        ).map_values(
            |i: int|
                OrphanView::FloatingLabel {
                    net: items.labels@[i].net@,
                    x: items.labels@[i].x,
                    y: items.labels@[i].y,
                },
        ),
    decreases n,
{
    if n > 0 {
        lemma_labels(items, tol, (n - 1) as nat);
        lemma_label(items, n - 1, tol);
    }
    assert(floating_labels(items, tol, n) =~= positions_where(
        |i: int| label_is_loose(items, i, tol),
        n,
    ).map_values(
        |i: int|
            OrphanView::FloatingLabel {
                net: items.labels@[i].net@,
                x: items.labels@[i].x,
                y: items.labels@[i].y,
            },
    ));
}

proof fn lemma_ends(items: SheetItems, tol: int, n: nat)
    requires
        tol > 0,
        n <= items.wires@.len(),
    ensures
        floating_ends(items, tol, n) == positions_where(
            |e: int| end_is_loose(items, e, tol),
            2 * n,
        ).map_values(
            |e: int|
                (
                    end_place(items.wires@, e).0,
                    end_place(items.wires@, e).1,
                    items.wires@[e / 2].uuid,
                ),
        ),
    decreases n,
{
    let loose = |e: int| end_is_loose(items, e, tol);
    let shown = |e: int|
        (end_place(items.wires@, e).0, end_place(items.wires@, e).1, items.wires@[e / 2].uuid);
    if n > 0 {
        lemma_ends(items, tol, (n - 1) as nat);
        lemma_end(items, 2 * n - 2, tol);
        lemma_end(items, 2 * n - 1, tol);
        let wire = items.wires@[n - 1];
        let before = positions_where(loose, (2 * n - 2) as nat);
        let middle = positions_where(loose, (2 * n - 1) as nat);
        assert((2 * n - 2) / 2 == n - 1 && (2 * n - 1) / 2 == n - 1);
        assert(middle.map_values(shown) =~= before.map_values(shown) + floating_end(
            items,
            tol,
            wire,
            wire.x1,
            wire.y1,
        ));
        assert(positions_where(loose, 2 * n).map_values(shown) =~= middle.map_values(shown)
            + floating_end(items, tol, wire, wire.x2, wire.y2));
    }
    assert(floating_ends(items, tol, n) =~= positions_where(loose, 2 * n).map_values(shown));
}

} // verus!
