//! What is read from a board, how large a footprint is, and what of a board
//! enters the revision.

use crate::dimensions::{
    corners, extent_of_parts, graphic_spots, graphics_spots, hull_of, pads_spots, Graphic, HullView,
    PadOutline, Spot,
};
use crate::footprint_item::{
    child_nets, child_updated, fields_applied, has_pad, snapshot_of, FieldItem, FootprintChild,
    FootprintItem,
};
use crate::identity::le_bytes;
use crate::revision::{footprint_bytes, footprints_bytes, pads_bytes, routed_bytes};
use crate::sync_apply::Extent;
use crate::sync_types::{BoardFootprint, Point};
use crate::text::texts;
use crate::text_map::TextMap;
use vstd::arithmetic::div_mod::lemma_div_denominator;
use vstd::arithmetic::power::{lemma_pow0, lemma_pow_positive, pow};
use vstd::prelude::*;
use vstd::string::*;
use vstd::utf8::*;

verus! {

/// The item is a pad of this number on this net.
pub open spec fn puts_pad_on(child: FootprintChild, number: Seq<char>, net: Seq<char>) -> bool {
    child matches FootprintChild::Pad { number: own, net: Some(on) } && own@ == number && on.name@
        == net && net.len() > 0
}

/// Item `i` decides about a pad: it puts the pad on a net, and no later item
/// does.
pub open spec fn decides_pad(
    items: Seq<FootprintChild>,
    i: int,
    number: Seq<char>,
    net: Seq<char>,
) -> bool {
    &&& 0 <= i < items.len()
    &&& puts_pad_on(items[i], number, net)
    &&& forall|j: int, other: Seq<char>|
        i < j < items.len() ==> !#[trigger] puts_pad_on(items[j], number, other)
}

/// A pad is on a net exactly if an item puts it there and no later one puts it
/// on another.
pub proof fn law_a_pad_is_on_its_last_net(
    items: Seq<FootprintChild>,
    number: Seq<char>,
    net: Seq<char>,
)
    ensures
        child_nets(items).contains_key(number) && child_nets(items)[number] == net <==> exists|i: int|
            #[trigger] decides_pad(items, i, number, net),
    decreases items.len(),
{
    if items.len() > 0 {
        let rest = items.drop_last();
        let end = items.len() - 1;
        law_a_pad_is_on_its_last_net(rest, number, net);
        assert(items[end] == items.last());
        assert forall|i: int| 0 <= i < rest.len() implies #[trigger] rest[i] == items[i] by {}
        if exists|i: int| #[trigger] decides_pad(items, i, number, net) {
            let i = choose|i: int| #[trigger] decides_pad(items, i, number, net);
            if i < end {
                assert(decides_pad(rest, i, number, net)) by {
                    assert forall|j: int, other: Seq<char>| i < j < rest.len() implies
                        !#[trigger] puts_pad_on(rest[j], number, other) by {
                        assert(!puts_pad_on(items[j], number, other));
                    }
                }
                match items.last() {
                    FootprintChild::Pad { number: own, net: Some(on) } => {
                        assert(!puts_pad_on(items[end], number, on.name@));
                    },
                    _ => {},
                }
            }
        }
        if child_nets(items).contains_key(number) && child_nets(items)[number] == net {
            if puts_pad_on(items[end], number, net) {
                assert(decides_pad(items, end, number, net));
            } else {
                let i = choose|i: int| #[trigger] decides_pad(rest, i, number, net);
                assert(decides_pad(items, i, number, net)) by {
                    assert forall|j: int, other: Seq<char>| i < j < items.len() implies
                        !#[trigger] puts_pad_on(items[j], number, other) by {
                        if j < end {
                            assert(!puts_pad_on(rest[j], number, other));
                        }
                    }
                }
            }
        }
    }
}

/// The net that a plan writes to a pad is the one that the next snapshot reads
/// there, and a pad that the plan puts on no net is on none.
pub proof fn law_a_snapshot_reads_the_nets_of_a_plan(
    before: FootprintItem,
    after: FootprintItem,
    reference: Seq<char>,
    value: Seq<char>,
    symbol_path: Seq<char>,
    dnp: bool,
    pad_nets: Map<Seq<char>, String>,
    net_codes: Map<Seq<char>, i32>,
    number: Seq<char>,
)
    requires
        fields_applied(
            before,
            after,
            reference,
            value,
            symbol_path,
            dnp,
            pad_nets,
            net_codes,
        ),
        has_pad(before.definition->0.items@, number),
    ensures
        ({
            let nets = child_nets(after.definition->0.items@);
            if pad_nets.contains_key(number) && pad_nets[number]@.len() > 0 {
                nets.contains_key(number) && nets[number] == pad_nets[number]@
            } else {
                !nets.contains_key(number)
            }
        }),
{
    let items = after.definition->0.items@;
    let old_items = before.definition->0.items@;
    assert forall|j: int, other: Seq<char>|
        0 <= j < items.len() && #[trigger] puts_pad_on(items[j], number, other) implies
        pad_nets.contains_key(number) && other == pad_nets[number]@ by {
        assert(child_updated(old_items[j], items[j], pad_nets, net_codes));
    }
    if pad_nets.contains_key(number) && pad_nets[number]@.len() > 0 {
        let net = pad_nets[number]@;
        let i = choose|i: int|
            0 <= i < old_items.len() && #[trigger] old_items[i] is Pad && old_items[i]->number@
                == number;
        assert(child_updated(old_items[i], items[i], pad_nets, net_codes));
        assert(puts_pad_on(items[i], number, net));
        lemma_last_pad(items, number, net, i);
        law_a_pad_is_on_its_last_net(items, number, net);
    } else if child_nets(items).contains_key(number) {
        let net = child_nets(items)[number];
        law_a_pad_is_on_its_last_net(items, number, net);
        let i = choose|i: int| #[trigger] decides_pad(items, i, number, net);
        assert(puts_pad_on(items[i], number, net));
    }
}

proof fn lemma_last_pad(items: Seq<FootprintChild>, number: Seq<char>, net: Seq<char>, i: int)
    requires
        0 <= i < items.len(),
        puts_pad_on(items[i], number, net),
        forall|j: int, other: Seq<char>|
            0 <= j < items.len() && #[trigger] puts_pad_on(items[j], number, other) ==> other
                == net,
    ensures
        exists|k: int| #[trigger] decides_pad(items, k, number, net),
    decreases items.len() - i,
{
    if forall|j: int, other: Seq<char>|
        i < j < items.len() ==> !#[trigger] puts_pad_on(items[j], number, other) {
        assert(decides_pad(items, i, number, net));
    } else {
        let (j, other) = choose|j: int, other: Seq<char>|
            i < j < items.len() && #[trigger] puts_pad_on(items[j], number, other);
        assert(other == net);
        lemma_last_pad(items, number, net, j);
    }
}

/// The place is one that a footprint's size goes by: a corner of a pad, or a
/// place of a drawing.
pub open spec fn is_part(pads: Seq<PadOutline>, graphics: Seq<Graphic>, at: Spot) -> bool {
    ||| exists|i: int|
        0 <= i < pads.len() && is_pad_corner(#[trigger] pads[i], at)
    ||| exists|i: int|
        0 <= i < graphics.len() && is_graphic_place(#[trigger] graphics[i], at)
}

/// The place, in half nanometres, is the upper left or the lower right corner
/// of the pad.
pub open spec fn is_pad_corner(pad: PadOutline, at: Spot) -> bool {
    ||| at.x == 2 * pad.center.x - pad.size_x && at.y == 2 * pad.center.y - pad.size_y
    ||| at.x == 2 * pad.center.x + pad.size_x && at.y == 2 * pad.center.y + pad.size_y
}

/// The place is that of a point.
pub open spec fn is_at(point: Point, at: Spot) -> bool {
    at.x == 2 * point.x && at.y == 2 * point.y
}

/// The place is a point of the drawing, or a corner of the square round a circle
/// or a text.
pub open spec fn is_graphic_place(graphic: Graphic, at: Spot) -> bool {
    match graphic {
        Graphic::Line { start, end } => is_at(start, at) || is_at(end, at),
        Graphic::Rect { start, end } => is_at(start, at) || is_at(end, at),
        Graphic::Circle { center, radius } => {
            ||| at.x == 2 * (center.x - radius) && at.y == 2 * (center.y - radius)
            ||| at.x == 2 * (center.x + radius) && at.y == 2 * (center.y + radius)
        },
        Graphic::Arc { start, mid, end } => is_at(start, at) || is_at(mid, at) || is_at(end, at),
        Graphic::Poly { points } => exists|i: int|
            0 <= i < points@.len() && is_at(#[trigger] points@[i], at),
        Graphic::Text { position, size } => {
            ||| at.x == 2 * position.x - size && at.y == 2 * position.y - size
            ||| at.x == 2 * position.x + size && at.y == 2 * position.y + size
        },
    }
}

/// The rectangle is the smallest round the parts.
pub open spec fn is_hull(pads: Seq<PadOutline>, graphics: Seq<Graphic>, hull: HullView) -> bool {
    &&& forall|at: Spot| #[trigger]
        is_part(pads, graphics, at) ==> hull.min_x <= at.x <= hull.max_x && hull.min_y <= at.y
            <= hull.max_y
    &&& exists|at: Spot| #[trigger] is_part(pads, graphics, at) && at.x == hull.min_x
    &&& exists|at: Spot| #[trigger] is_part(pads, graphics, at) && at.x == hull.max_x
    &&& exists|at: Spot| #[trigger] is_part(pads, graphics, at) && at.y == hull.min_y
    &&& exists|at: Spot| #[trigger] is_part(pads, graphics, at) && at.y == hull.max_y
}

/// The length of a side in nanometres; it is at least one millimetre.
pub open spec fn side_length(low: int, high: int) -> int {
    let length = (high - low) / 2;
    if length < 1_000_000 {
        1_000_000
    } else if length > 0xffff_ffff_ffff_ffff {
        0xffff_ffff_ffff_ffff
    } else {
        length
    }
}

/// A footprint is as large as the smallest rectangle round all of its pads and
/// drawings, and ten millimetres each way where it has none.
pub proof fn law_a_footprint_is_as_large_as_its_parts(
    pads: Seq<PadOutline>,
    graphics: Seq<Graphic>,
)
    ensures
        (forall|at: Spot| !#[trigger] is_part(pads, graphics, at)) ==> extent_of_parts(
            pads,
            graphics,
        ) == (Extent { width: 10_000_000, height: 10_000_000 }),
        (exists|at: Spot| #[trigger] is_part(pads, graphics, at)) ==> exists|hull: HullView|
            #[trigger] is_hull(pads, graphics, hull) && extent_of_parts(pads, graphics).width
                == side_length(hull.min_x, hull.max_x) && extent_of_parts(pads, graphics).height
                == side_length(hull.min_y, hull.max_y),
{
    let a = pads_spots(pads, pads.len());
    let b = graphics_spots(graphics, graphics.len());
    let all = a + b;
    assert forall|at: Spot| #[trigger] all.contains(at) <==> is_part(pads, graphics, at) by {
        lemma_pads_spots(pads, pads.len(), at);
        lemma_graphics_spots(graphics, graphics.len(), at);
        lemma_either(a, b, at);
    }
    lemma_hull(all);
    if exists|at: Spot| #[trigger] is_part(pads, graphics, at) {
        let at = choose|at: Spot| #[trigger] is_part(pads, graphics, at);
        assert(all.contains(at));
        let hull = hull_of(all)->0;
        assert forall|at: Spot| #[trigger] is_part(pads, graphics, at) implies hull.min_x <= at.x
            <= hull.max_x && hull.min_y <= at.y <= hull.max_y by {
            assert(all.contains(at));
        }
        let (p, q, r, s) = (
            choose|at: Spot| #[trigger] all.contains(at) && at.x == hull.min_x,
            choose|at: Spot| #[trigger] all.contains(at) && at.x == hull.max_x,
            choose|at: Spot| #[trigger] all.contains(at) && at.y == hull.min_y,
            choose|at: Spot| #[trigger] all.contains(at) && at.y == hull.max_y,
        );
        assert(is_part(pads, graphics, p) && is_part(pads, graphics, q) && is_part(
            pads,
            graphics,
            r,
        ) && is_part(pads, graphics, s));
        assert(is_hull(pads, graphics, hull));
    } else {
        if all.len() > 0 {
            assert(all.contains(all[0]));
        }
    }
}

proof fn lemma_either(a: Seq<Spot>, b: Seq<Spot>, x: Spot)
    ensures
        (a + b).contains(x) <==> a.contains(x) || b.contains(x),
{
    let both = a + b;
    if a.contains(x) {
        assert(both[a.index_of(x)] == x);
    }
    if b.contains(x) {
        assert(both[a.len() + b.index_of(x)] == x);
    }
    if both.contains(x) {
        let i = both.index_of(x);
        if i < a.len() {
            assert(a[i] == x);
        } else {
            assert(b[i - a.len()] == x);
        }
    }
}

proof fn lemma_pads_spots(pads: Seq<PadOutline>, n: nat, at: Spot)
    requires
        n <= pads.len(),
    ensures
        pads_spots(pads, n).contains(at) <==> exists|i: int|
            0 <= i < n && is_pad_corner(#[trigger] pads[i], at),
    decreases n,
{
    if n > 0 {
        lemma_pads_spots(pads, (n - 1) as nat, at);
        let own = corners(pads[n - 1].center, pads[n - 1].size_x, pads[n - 1].size_y);
        lemma_either(pads_spots(pads, (n - 1) as nat), own, at);
        assert(own.contains(at) <==> is_pad_corner(pads[n - 1], at)) by {
            if own.contains(at) {
                let q = own.index_of(at);
                assert(q == 0 || q == 1);
            }
            if is_pad_corner(pads[n - 1], at) {
                assert(own[0] == at || own[1] == at);
            }
        }
    }
}

proof fn lemma_graphic_spots(graphic: Graphic, at: Spot)
    ensures
        graphic_spots(graphic).contains(at) <==> is_graphic_place(graphic, at),
{
    let own = graphic_spots(graphic);
    match graphic {
        Graphic::Poly { points } => {
            if own.contains(at) {
                let q = own.index_of(at);
                assert(is_at(points@[q], at));
            }
            if exists|i: int| 0 <= i < points@.len() && is_at(#[trigger] points@[i], at) {
                let i = choose|i: int| 0 <= i < points@.len() && is_at(#[trigger] points@[i], at);
                assert(own[i] == at);
            }
        },
        Graphic::Arc { .. } => {
            if own.contains(at) {
                let q = own.index_of(at);
                assert(q == 0 || q == 1 || q == 2);
            }
            if is_graphic_place(graphic, at) {
                assert(own[0] == at || own[1] == at || own[2] == at);
            }
        },
        _ => {
            assert(own.len() == 2);
            if own.contains(at) {
                let q = own.index_of(at);
                assert(q == 0 || q == 1);
            }
            if is_graphic_place(graphic, at) {
                assert(own[0] == at || own[1] == at);
            }
        },
    }
}

proof fn lemma_graphics_spots(graphics: Seq<Graphic>, n: nat, at: Spot)
    requires
        n <= graphics.len(),
    ensures
        graphics_spots(graphics, n).contains(at) <==> exists|i: int|
            0 <= i < n && is_graphic_place(#[trigger] graphics[i], at),
    decreases n,
{
    if n > 0 {
        lemma_graphics_spots(graphics, (n - 1) as nat, at);
        lemma_graphic_spots(graphics[n - 1], at);
        lemma_either(
            graphics_spots(graphics, (n - 1) as nat),
            graphic_spots(graphics[n - 1]),
            at,
        );
    }
}

proof fn lemma_hull(spots: Seq<Spot>)
    ensures
        hull_of(spots) is None <==> spots.len() == 0,
        hull_of(spots) matches Some(hull) ==> {
            &&& forall|at: Spot| #[trigger]
                spots.contains(at) ==> hull.min_x <= at.x <= hull.max_x && hull.min_y <= at.y
                    <= hull.max_y
            &&& exists|at: Spot| #[trigger] spots.contains(at) && at.x == hull.min_x
            &&& exists|at: Spot| #[trigger] spots.contains(at) && at.x == hull.max_x
            &&& exists|at: Spot| #[trigger] spots.contains(at) && at.y == hull.min_y
            &&& exists|at: Spot| #[trigger] spots.contains(at) && at.y == hull.max_y
        },
    decreases spots.len(),
{
    if spots.len() > 0 {
        let rest = spots.drop_last();
        let last = spots.last();
        lemma_hull(rest);
        assert(spots[spots.len() - 1] == last);
        assert(spots.contains(last));
        assert forall|at: Spot| #[trigger] spots.contains(at) <==> rest.contains(at) || at
            == last by {
            if rest.contains(at) {
                assert(spots[rest.index_of(at)] == at);
            }
            if spots.contains(at) {
                let q = spots.index_of(at);
                if q < rest.len() {
                    assert(rest[q] == at);
                }
            }
        }
        if rest.len() > 0 {
            let before = hull_of(rest)->0;
            let p = choose|at: Spot| #[trigger] rest.contains(at) && at.x == before.min_x;
            let q = choose|at: Spot| #[trigger] rest.contains(at) && at.x == before.max_x;
            let r = choose|at: Spot| #[trigger] rest.contains(at) && at.y == before.min_y;
            let s = choose|at: Spot| #[trigger] rest.contains(at) && at.y == before.max_y;
            assert(spots.contains(p) && spots.contains(q) && spots.contains(r) && spots.contains(
                s,
            ));
        }
    }
}

/// A different middle between the same ends makes different bytes.
proof fn lemma_middle(a: Seq<u8>, x: Seq<u8>, y: Seq<u8>, b: Seq<u8>)
    requires
        a + x + b == a + y + b,
    ensures
        x == y,
{
    let (p, q) = (a + x + b, a + y + b);
    assert(p.len() == q.len());
    assert(p.subrange(a.len() as int, (a.len() + x.len()) as int) =~= x);
    assert(q.subrange(a.len() as int, (a.len() + y.len()) as int) =~= y);
}

proof fn lemma_texts_differ(a: Seq<char>, b: Seq<char>)
    requires
        encode_utf8(a) == encode_utf8(b),
    ensures
        a == b,
{
    encode_utf8_decode_utf8(a);
    encode_utf8_decode_utf8(b);
}

/// The footprints have the same pads on the same nets.
pub open spec fn same_pads(a: TextMap<String>, b: TextMap<String>) -> bool {
    &&& a.keys() == b.keys()
    &&& a.values().len() == b.values().len()
    &&& forall|i: int| 0 <= i < a.values().len() ==> (#[trigger] a.values()[i])@ == b.values()[i]@
}

proof fn lemma_same_pads(a: TextMap<String>, b: TextMap<String>, n: nat)
    requires
        same_pads(a, b),
        n <= a.values().len(),
    ensures
        pads_bytes(a, n) == pads_bytes(b, n),
    decreases n,
{
    if n > 0 {
        lemma_same_pads(a, b, (n - 1) as nat);
        assert(a.values()[n - 1]@ == b.values()[n - 1]@);
    }
}

/// What a revision reads of a footprint changes with its identifier, with its
/// reference, with its library name and with its identity, each on its own.
pub proof fn law_a_revision_reads_every_field(a: BoardFootprint, b: BoardFootprint)
    requires
        same_pads(a.pad_nets, b.pad_nets),
        a.pad_nets.keys().len() == a.pad_nets.values().len(),
        a.symbol_path is Some && b.symbol_path is Some,
        footprint_bytes(a) == footprint_bytes(b),
    ensures
        a.reference@ == b.reference@ && a.footprint_id@ == b.footprint_id@ && a.symbol_path->0@
            == b.symbol_path->0@ ==> a.kiid@ == b.kiid@,
        a.kiid@ == b.kiid@ && a.footprint_id@ == b.footprint_id@ && a.symbol_path->0@
            == b.symbol_path->0@ ==> a.reference@ == b.reference@,
        a.kiid@ == b.kiid@ && a.reference@ == b.reference@ && a.symbol_path->0@
            == b.symbol_path->0@ ==> a.footprint_id@ == b.footprint_id@,
        a.kiid@ == b.kiid@ && a.reference@ == b.reference@ && a.footprint_id@ == b.footprint_id@
            ==> a.symbol_path->0@ == b.symbol_path->0@,
{
    lemma_same_pads(a.pad_nets, b.pad_nets, a.pad_nets.keys().len());
    let pads = pads_bytes(a.pad_nets, a.pad_nets.keys().len());
    let (k, r, f, p) = (
        encode_utf8(a.kiid@),
        encode_utf8(a.reference@),
        encode_utf8(a.footprint_id@),
        encode_utf8(a.symbol_path->0@),
    );
    let (k2, r2, f2, p2) = (
        encode_utf8(b.kiid@),
        encode_utf8(b.reference@),
        encode_utf8(b.footprint_id@),
        encode_utf8(b.symbol_path->0@),
    );
    assert(k + r + f + p + pads == k2 + r2 + f2 + p2 + pads);
    let none = Seq::<u8>::empty();
    if r == r2 && f == f2 && p == p2 {
        assert(k + r + f + p + pads =~= none + k + (r + f + p + pads));
        assert(k2 + r2 + f2 + p2 + pads =~= none + k2 + (r + f + p + pads));
        lemma_middle(none, k, k2, r + f + p + pads);
        lemma_texts_differ(a.kiid@, b.kiid@);
    }
    if k == k2 && f == f2 && p == p2 {
        assert(k + r + f + p + pads =~= k + r + (f + p + pads));
        assert(k2 + r2 + f2 + p2 + pads =~= k + r2 + (f + p + pads));
        lemma_middle(k, r, r2, f + p + pads);
        lemma_texts_differ(a.reference@, b.reference@);
    }
    if k == k2 && r == r2 && p == p2 {
        assert(k + r + f + p + pads =~= (k + r) + f + (p + pads));
        assert(k2 + r2 + f2 + p2 + pads =~= (k + r) + f2 + (p + pads));
        lemma_middle(k + r, f, f2, p + pads);
        lemma_texts_differ(a.footprint_id@, b.footprint_id@);
    }
    if k == k2 && r == r2 && f == f2 {
        assert(k + r + f + p + pads =~= (k + r + f) + p + pads);
        assert(k2 + r2 + f2 + p2 + pads =~= (k + r + f) + p2 + pads);
        lemma_middle(k + r + f, p, p2, pads);
        lemma_texts_differ(a.symbol_path->0@, b.symbol_path->0@);
    }
}

/// What a revision reads of the pads of a footprint is each pad with its net,
/// one after the other, and of the copper each routed net with its count.
pub proof fn law_a_revision_reads_every_pad(
    pads: TextMap<String>,
    routed: TextMap<usize>,
    n: nat,
)
    requires
        n <= pads.keys().len(),
        n <= routed.keys().len(),
    ensures
        pads_bytes(pads, n) == Seq::new(
            n,
            |i: int| encode_utf8(pads.keys()[i]) + encode_utf8(pads.values()[i]@),
        ).flatten_alt(),
        routed_bytes(routed, n) == Seq::new(
            n,
            |i: int| encode_utf8(routed.keys()[i]) + le_bytes(routed.values()[i] as nat, 8),
        ).flatten_alt(),
    decreases n,
{
    let a = Seq::new(n, |i: int| encode_utf8(pads.keys()[i]) + encode_utf8(pads.values()[i]@));
    let b = Seq::new(
        n,
        |i: int| encode_utf8(routed.keys()[i]) + le_bytes(routed.values()[i] as nat, 8),
    );
    if n > 0 {
        law_a_revision_reads_every_pad(pads, routed, (n - 1) as nat);
        assert(a.drop_last() =~= Seq::new(
            (n - 1) as nat,
            |i: int| encode_utf8(pads.keys()[i]) + encode_utf8(pads.values()[i]@),
        ));
        assert(b.drop_last() =~= Seq::new(
            (n - 1) as nat,
            |i: int| encode_utf8(routed.keys()[i]) + le_bytes(routed.values()[i] as nat, 8),
        ));
        assert(pads_bytes(pads, n) =~= pads_bytes(pads, (n - 1) as nat) + a.last());
        assert(routed_bytes(routed, n) =~= routed_bytes(routed, (n - 1) as nat) + b.last());
    } else {
        assert(a =~= Seq::empty());
        assert(b =~= Seq::empty());
    }
}

/// What a revision reads of a list of footprints is each of them, in its order.
pub proof fn law_a_revision_reads_every_footprint(
    footprints: Seq<BoardFootprint>,
    order: Seq<int>,
)
    ensures
        footprints_bytes(footprints, order) == order.map_values(
            |k: int| footprint_bytes(footprints[k]),
        ).flatten_alt(),
    decreases order.len(),
{
    let shown = |k: int| footprint_bytes(footprints[k]);
    let all = order.map_values(shown);
    if order.len() > 0 {
        law_a_revision_reads_every_footprint(footprints, order.drop_last());
        assert(all.drop_last() =~= order.drop_last().map_values(shown));
        assert(all.last() == footprint_bytes(footprints[order.last()]));
    } else {
        assert(all =~= Seq::empty());
    }
}

/// What is read of a live footprint is what its item says: its own texts, its
/// pose and its flags, with nothing where the item says nothing.
pub proof fn law_a_snapshot_reads_every_part(item: FootprintItem, footprint: BoardFootprint)
    requires
        snapshot_of(item, footprint),
    ensures
        item.id is Some && item.id->0@ == footprint.kiid@,
        item.reference_field matches Some(field) ==> (field.text matches Some(text)
            ==> footprint.reference@ == text@),
        item.value_field matches Some(field) ==> (field.text matches Some(text)
            ==> footprint.value@ == text@),
        item.reference_field is None ==> footprint.reference@.len() == 0,
        item.value_field is None ==> footprint.value@.len() == 0,
        item.definition->0.id matches Some(id) ==> footprint.footprint_id@
            == id.library_nickname@ + ":"@ + id.entry_name@,
        item.symbol_path is None <==> footprint.symbol_path is None,
        item.symbol_path matches Some(parts) ==> footprint.symbol_path->0@ == "/"@
            + crate::text::joined(texts(parts@), "/"@),
        item.position matches Some(point) ==> footprint.position == point,
        item.position is None ==> footprint.position == (Point { x: 0, y: 0 }),
        item.rotation matches Some(angle) ==> footprint.rotation == angle,
        item.rotation is None ==> footprint.rotation == 0,
        footprint.layer@ == item.layer@,
        footprint.locked == item.locked,
        item.attributes matches Some(flags) ==> footprint.dnp == flags.do_not_populate
            && footprint.not_in_schematic == flags.not_in_schematic,
        item.attributes is None ==> !footprint.dnp && !footprint.not_in_schematic,
{
}

/// A plan that is written into a footprint is in the item and in its
/// definition alike, and leaves what the schematic does not own.
pub proof fn law_a_plan_is_written_in_both_places(
    before: FootprintItem,
    after: FootprintItem,
    reference: Seq<char>,
    value: Seq<char>,
    symbol_path: Seq<char>,
    dnp: bool,
    pad_nets: Map<Seq<char>, String>,
    net_codes: Map<Seq<char>, i32>,
)
    requires
        fields_applied(before, after, reference, value, symbol_path, dnp, pad_nets, net_codes),
    ensures
        carries(after.reference_field, "Reference"@, reference),
        carries(after.value_field, "Value"@, value),
        carries(after.definition->0.reference_field, "Reference"@, reference),
        carries(after.definition->0.value_field, "Value"@, value),
        after.attributes matches Some(flags) && flags.do_not_populate == dnp,
        after.definition->0.attributes matches Some(flags) && flags.do_not_populate == dnp,
        before.attributes matches Some(flags) ==> after.attributes->0.not_in_schematic
            == flags.not_in_schematic,
        after.id == before.id,
        after.position == before.position,
        after.rotation == before.rotation,
        after.layer == before.layer,
        after.locked == before.locked,
        after.definition->0.id == before.definition->0.id,
{
}

/// A field has this name and this text.
pub open spec fn carries(field: Option<FieldItem>, name: Seq<char>, text: Seq<char>) -> bool {
    field is Some && field->0.name@ == name && field->0.text is Some && field->0.text->0@ == text
}

/// A number is written with its lowest byte first.
pub proof fn law_the_lowest_byte_comes_first(value: nat, width: nat, i: int)
    requires
        0 <= i < width,
    ensures
        le_bytes(value, width).len() == width,
        le_bytes(value, width)[i] as int == (value as int / pow(256, i as nat)) % 256,
    decreases width,
{
    lemma_width(value, width);
    lemma_pow_positive(256, i as nat);
    if i == 0 {
        lemma_pow0(256);
        assert(value as int / 1 == value);
        assert(le_bytes(value, width)[0] == (value % 256) as u8);
    } else {
        law_the_lowest_byte_comes_first(value / 256, (width - 1) as nat, i - 1);
        lemma_pow_positive(256, (i - 1) as nat);
        lemma_div_denominator(value as int, 256, pow(256, (i - 1) as nat));
        assert(pow(256, i as nat) == 256 * pow(256, (i - 1) as nat)) by {
            reveal(pow);
        }
        assert((value / 256) as int / pow(256, (i - 1) as nat) == value as int / pow(
            256,
            i as nat,
        ));
        assert(le_bytes(value, width)[i] == le_bytes(value / 256, (width - 1) as nat)[i - 1]);
    }
}

proof fn lemma_width(value: nat, width: nat)
    ensures
        le_bytes(value, width).len() == width,
    decreases width,
{
    if width > 0 {
        lemma_width(value / 256, (width - 1) as nat);
    }
}

} // verus!
