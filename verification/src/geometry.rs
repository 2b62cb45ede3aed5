//! Points and wires of a schematic sheet, in whole nanometres.

use vstd::prelude::*;

verus! {

/// The coincidence tolerance of the connectivity tools: 0.01 mm.
pub const COINCIDENT_TOLERANCE: i64 = 10_000;

/// A wire from one end to the other.
#[derive(PartialEq, Eq, Debug)]
pub struct Wire {
    pub x1: i64,
    pub y1: i64,
    pub x2: i64,
    pub y2: i64,
    pub uuid: Option<String>,
}

/// What sort of thing names a net.
#[derive(Clone, Copy, PartialEq, Eq, Debug, Structural)]
pub enum LabelKind {
    NetLabel,
    GlobalLabel,
    HierarchicalLabel,
    PowerSymbol,
}

/// The name of a net at a place.
#[derive(PartialEq, Eq, Debug)]
pub struct Label {
    pub net: String,
    pub kind: LabelKind,
    pub x: i64,
    pub y: i64,
}

/// The distance between two numbers.
pub open spec fn apart(a: int, b: int) -> int {
    if a < b {
        b - a
    } else {
        a - b
    }
}

/// The points are less than the tolerance apart on both axes.
pub open spec fn coincident(x1: int, y1: int, x2: int, y2: int, tol: int) -> bool {
    apart(x1, x2) < tol && apart(y1, y2) < tol
}

/// The number lies between the other two, or no further than the tolerance
/// outside them.
pub open spec fn between(value: int, a: int, b: int, tol: int) -> bool {
    if a < b {
        a - tol <= value <= b + tol
    } else {
        b - tol <= value <= a + tol
    }
}

/// The wire runs up and down.
pub open spec fn is_vertical(wire: Wire, tol: int) -> bool {
    apart(wire.x1 as int, wire.x2 as int) < tol
}

/// The wire runs from left to right.
pub open spec fn is_horizontal(wire: Wire, tol: int) -> bool {
    !is_vertical(wire, tol) && apart(wire.y1 as int, wire.y2 as int) < tol
}

/// The point lies on the wire. No point lies on a diagonal one.
pub open spec fn on_wire(wire: Wire, x: int, y: int, tol: int) -> bool {
    if is_vertical(wire, tol) {
        apart(x, wire.x1 as int) < tol && between(y, wire.y1 as int, wire.y2 as int, tol)
    } else if is_horizontal(wire, tol) {
        apart(y, wire.y1 as int) < tol && between(x, wire.x1 as int, wire.x2 as int, tol)
    } else {
        false
    }
}

/// The point lies on the wire and at neither of its ends.
pub open spec fn on_interior(wire: Wire, x: int, y: int, tol: int) -> bool {
    &&& on_wire(wire, x, y, tol)
    &&& !coincident(x, y, wire.x1 as int, wire.y1 as int, tol)
    &&& !coincident(x, y, wire.x2 as int, wire.y2 as int, tol)
}

/// The distance between two numbers.
pub fn distance(a: i64, b: i64) -> (res: i128)
    ensures
        res == apart(a as int, b as int),
{
    if a < b {
        b as i128 - a as i128
    } else {
        a as i128 - b as i128
    }
}

/// Whether two points are less than the tolerance apart on both axes.
pub fn points_coincident(x1: i64, y1: i64, x2: i64, y2: i64, tol: i64) -> (res: bool)
    ensures
        res == coincident(x1 as int, y1 as int, x2 as int, y2 as int, tol as int),
{
    distance(x1, x2) < tol as i128 && distance(y1, y2) < tol as i128
}

fn lies_between(value: i64, a: i64, b: i64, tol: i64) -> (res: bool)
    ensures
        res == between(value as int, a as int, b as int, tol as int),
{
    let (low, high) = if a < b {
        (a as i128, b as i128)
    } else {
        (b as i128, a as i128)
    };
    low - tol as i128 <= value as i128 && value as i128 <= high + tol as i128
}

/// Whether a point lies on a wire.
pub fn point_on_wire(wire: &Wire, x: i64, y: i64, tol: i64) -> (res: bool)
    ensures
        res == on_wire(*wire, x as int, y as int, tol as int),
{
    if distance(wire.x1, wire.x2) < tol as i128 {
        distance(x, wire.x1) < tol as i128 && lies_between(y, wire.y1, wire.y2, tol)
    } else if distance(wire.y1, wire.y2) < tol as i128 {
        distance(y, wire.y1) < tol as i128 && lies_between(x, wire.x1, wire.x2, tol)
    } else {
        false
    }
}

/// The number in thousands, rounded to the nearest and halves away from zero.
pub open spec fn thousands(value: int) -> int {
    if value >= 0 {
        (value + 500) / 1000
    } else {
        -((500 - value) / 1000)
    }
}

/// The place in micrometres.
pub open spec fn micro(x: int, y: int) -> (i64, i64) {
    (thousands(x) as i64, thousands(y) as i64)
}

fn to_thousands(value: i64) -> (res: i64)
    ensures
        res == thousands(value as int),
{
    if value >= 0 {
        ((value as i128 + 500) / 1000) as i64
    } else {
        let positive: i128 = (500 - value as i128) / 1000;
        (-positive) as i64
    }
}

/// The identity of a node of the net graph: its place in micrometres.
///
/// This is a key for equality and not a tolerance: it joins no near misses.
pub fn pt_key(x: i64, y: i64) -> (res: (i64, i64))
    ensures
        res == micro(x as int, y as int),
        res.0 == thousands(x as int),
        res.1 == thousands(y as int),
{
    (to_thousands(x), to_thousands(y))
}

/// The number of the strip of this width that the value falls into.
pub open spec fn strip(value: int, width: int) -> int
    recommends
        width > 0,
{
    value / width
}

/// The number of the strip of this width that the value falls into.
pub fn strip_of(value: i64, width: i64) -> (res: i64)
    requires
        width > 0,
    ensures
        res == strip(value as int, width as int),
{
    if value >= 0 {
        value / width
    } else {
        let up: i64 = -(value + 1);
        let res: i64 = -(up / width) - 1;
        proof {
            let v = value as int;
            let w = width as int;
            let u = -(v + 1);
            vstd::arithmetic::div_mod::lemma_fundamental_div_mod(u, w);
            let q = u / w;
            let r = u % w;
            assert(u == w * q + r);
            assert(v == w * (-q - 1) + (w - 1 - r)) by (nonlinear_arith)
                requires
                    u == w * q + r,
                    u == -(v + 1),
            ;
            vstd::arithmetic::div_mod::lemma_fundamental_div_mod_converse(
                v,
                w,
                -q - 1,
                w - 1 - r,
            );
        }
        res
    }
}

/// Numbers less than a strip apart fall into the same strip or into
/// neighbouring ones.
pub proof fn lemma_near_strips(a: int, b: int, width: int)
    requires
        width > 0,
        apart(a, b) < width,
    ensures
        apart(strip(a, width), strip(b, width)) <= 1,
{
    let (p, q) = (a / width, b / width);
    vstd::arithmetic::div_mod::lemma_fundamental_div_mod(a, width);
    vstd::arithmetic::div_mod::lemma_fundamental_div_mod(b, width);
    let (r, s) = (a % width, b % width);
    if p >= q + 2 {
        assert(width * p >= width * q + 2 * width) by (nonlinear_arith)
            requires
                p >= q + 2,
                width > 0,
        ;
    } else if q >= p + 2 {
        assert(width * q >= width * p + 2 * width) by (nonlinear_arith)
            requires
                q >= p + 2,
                width > 0,
        ;
    }
}

/// One number for a pair of numbers.
pub open spec fn pair_number(pair: (int, int)) -> int {
    pair.0 * 0x1_0000_0000_0000_0000 + (pair.1 + 0x8000_0000_0000_0000)
}

/// Both numbers fit 64 bits.
pub open spec fn is_pair(pair: (int, int)) -> bool {
    i64::MIN <= pair.0 <= i64::MAX && i64::MIN <= pair.1 <= i64::MAX
}

/// Pairs with the same number are the same pair.
pub proof fn lemma_pair_numbers_differ(a: (int, int), b: (int, int))
    requires
        is_pair(a),
        is_pair(b),
        pair_number(a) == pair_number(b),
    ensures
        a == b,
{
}

/// One number for a pair of numbers.
pub fn pair_key(first: i64, second: i64) -> (res: i128)
    ensures
        res == pair_number((first as int, second as int)),
{
    (first as i128) * 0x1_0000_0000_0000_0000i128 + (second as i128 + 0x8000_0000_0000_0000i128)
}

} // verus!
