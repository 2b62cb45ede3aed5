//! What the geometry of a sheet means in plain arithmetic.

use crate::connectivity::wires_through;
use crate::geometry::{coincident, micro, on_interior, on_wire, thousands, Wire};
use crate::lists::{lemma_same_positions, positions_where};
use crate::point_index::count_near;
use vstd::prelude::*;

verus! {

/// Less than the tolerance lies between the places, to either side and up or
/// down.
pub open spec fn close(ax: int, ay: int, bx: int, by: int, tol: int) -> bool {
    -tol < ax - bx < tol && -tol < ay - by < tol
}

/// The place lies on an upright or a level wire, at most the tolerance beyond
/// its ends.
pub open spec fn lies_on(wire: Wire, x: int, y: int, tol: int) -> bool {
    let (x1, y1, x2, y2) = (wire.x1 as int, wire.y1 as int, wire.x2 as int, wire.y2 as int);
    if -tol < x1 - x2 < tol {
        -tol < x - x1 < tol && (y1 - tol <= y <= y2 + tol || y2 - tol <= y <= y1 + tol)
    } else {
        -tol < y1 - y2 < tol && -tol < y - y1 < tol && (x1 - tol <= x <= x2 + tol || x2 - tol <= x
            <= x1 + tol)
    }
}

/// Places coincide exactly if they are close, whichever is named first, and
/// every place coincides with itself.
pub proof fn law_places_coincide_when_close(ax: int, ay: int, bx: int, by: int, tol: int)
    ensures
        coincident(ax, ay, bx, by, tol) == close(ax, ay, bx, by, tol),
        coincident(ax, ay, bx, by, tol) == coincident(bx, by, ax, ay, tol),
        tol > 0 ==> coincident(ax, ay, ax, ay, tol),
{
}

/// A place is on a wire exactly if it lies on it, and on its interior if it is
/// close to neither end besides.
pub proof fn law_places_on_a_wire_lie_on_it(wire: Wire, x: int, y: int, tol: int)
    ensures
        on_wire(wire, x, y, tol) == lies_on(wire, x, y, tol),
        on_interior(wire, x, y, tol) == (lies_on(wire, x, y, tol) && !close(
            x,
            y,
            wire.x1 as int,
            wire.y1 as int,
            tol,
        ) && !close(x, y, wire.x2 as int, wire.y2 as int, tol)),
{
}

/// An upright wire, and a level one that is no shorter than the tolerance,
/// holds its ends and every place between them.
pub proof fn law_a_wire_holds_what_is_between_its_ends(wire: Wire, t: int, tol: int)
    requires
        tol > 0,
    ensures
        wire.x1 == wire.x2 && (wire.y1 <= t <= wire.y2 || wire.y2 <= t <= wire.y1) ==> on_wire(
            wire,
            wire.x1 as int,
            t,
            tol,
        ),
        wire.y1 == wire.y2 && (wire.x1 - wire.x2 >= tol || wire.x2 - wire.x1 >= tol) && (wire.x1
            <= t <= wire.x2 || wire.x2 <= t <= wire.x1) ==> on_wire(
            wire,
            t,
            wire.y1 as int,
            tol,
        ),
{
}

/// A node is the nearest micrometre on either axis; a half goes away from zero.
pub proof fn law_a_node_is_the_nearest_micrometre(x: i64, y: i64)
    ensures
        ({
            let (a, b) = (micro(x as int, y as int).0, micro(x as int, y as int).1);
            &&& x >= 0 ==> 1000 * a - 500 <= x < 1000 * a + 500
            &&& x < 0 ==> 1000 * a - 500 < x <= 1000 * a + 500
            &&& y >= 0 ==> 1000 * b - 500 <= y < 1000 * b + 500
            &&& y < 0 ==> 1000 * b - 500 < y <= 1000 * b + 500
        }),
{
    assert(i64::MIN <= thousands(x as int) <= i64::MAX);
    assert(i64::MIN <= thousands(y as int) <= i64::MAX);
}

/// The wires through a place are counted, each once.
pub proof fn law_every_wire_through_a_place_is_counted(wires: Seq<Wire>, x: int, y: int, tol: int)
    ensures
        wires_through(wires, x, y, tol) == positions_where(
            |i: int| lies_on(wires[i], x, y, tol),
            wires.len(),
        ).len(),
    decreases wires.len(),
{
    let own = |i: int| lies_on(wires[i], x, y, tol);
    if wires.len() > 0 {
        let rest = wires.drop_last();
        law_every_wire_through_a_place_is_counted(rest, x, y, tol);
        let part = |i: int| lies_on(rest[i], x, y, tol);
        assert forall|i: int| 0 <= i < rest.len() implies #[trigger] part(i) == own(i) by {
            assert(rest[i] == wires[i]);
        }
        lemma_same_positions(part, own, rest.len());
        law_places_on_a_wire_lie_on_it(wires.last(), x, y, tol);
    }
}

/// The places close to another are counted, each once.
pub proof fn law_every_close_place_is_counted(places: Seq<(i64, i64)>, x: int, y: int, tol: int)
    ensures
        count_near(places, x, y, tol) == positions_where(
            |i: int| close(x, y, places[i].0 as int, places[i].1 as int, tol),
            places.len(),
        ).len(),
    decreases places.len(),
{
    let own = |i: int| close(x, y, places[i].0 as int, places[i].1 as int, tol);
    if places.len() > 0 {
        let rest = places.drop_last();
        law_every_close_place_is_counted(rest, x, y, tol);
        let part = |i: int| close(x, y, rest[i].0 as int, rest[i].1 as int, tol);
        assert forall|i: int| 0 <= i < rest.len() implies #[trigger] part(i) == own(i) by {
            assert(rest[i] == places[i]);
        }
        lemma_same_positions(part, own, rest.len());
    }
}

} // verus!
