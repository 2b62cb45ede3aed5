//! The size of a footprint, from its pads and its drawings.
//!
//! Half of a size need not be a whole number of nanometres, so the rectangle
//! round a footprint is kept in half nanometres.

use crate::sync_apply::{Extent, DEFAULT_EXTENT, LEAST_EXTENT};
use crate::sync_types::Point;
use vstd::prelude::*;

verus! {

/// A pad: its centre and its size.
#[derive(Clone, Copy, PartialEq, Eq, Debug, Structural)]
pub struct PadOutline {
    pub center: Point,
    pub size_x: u64,
    pub size_y: u64,
}

/// A drawing of a footprint.
#[derive(PartialEq, Eq, Debug)]
pub enum Graphic {
    Line { start: Point, end: Point },
    Rect { start: Point, end: Point },
    Circle { center: Point, radius: u64 },
    Arc { start: Point, mid: Point, end: Point },
    Poly { points: Vec<Point> },
    Text { position: Point, size: u64 },
}

/// A place in half nanometres.
pub struct Spot {
    pub x: int,
    pub y: int,
}

/// The place in half nanometres.
pub open spec fn spot(point: Point) -> Spot {
    Spot { x: 2 * point.x, y: 2 * point.y }
}

/// The corners of a rectangle round a place, by its size in nanometres.
pub open spec fn corners(center: Point, size_x: u64, size_y: u64) -> Seq<Spot> {
    seq![
        Spot { x: 2 * center.x - size_x, y: 2 * center.y - size_y },
        Spot { x: 2 * center.x + size_x, y: 2 * center.y + size_y },
    ]
}

/// The places that the extent of a drawing goes by.
pub open spec fn graphic_spots(graphic: Graphic) -> Seq<Spot> {
    match graphic {
        Graphic::Line { start, end } => seq![spot(start), spot(end)],
        Graphic::Rect { start, end } => seq![spot(start), spot(end)],
        Graphic::Circle { center, radius } => seq![
            Spot { x: 2 * center.x - 2 * radius, y: 2 * center.y - 2 * radius },
            Spot { x: 2 * center.x + 2 * radius, y: 2 * center.y + 2 * radius },
        ],
        Graphic::Arc { start, mid, end } => seq![spot(start), spot(mid), spot(end)],
        Graphic::Poly { points } => Seq::new(points@.len(), |i: int| spot(points@[i])),
        Graphic::Text { position, size } => corners(position, size, size),
    }
}

/// The places of the first `n` pads.
pub open spec fn pads_spots(pads: Seq<PadOutline>, n: nat) -> Seq<Spot>
    decreases n,
{
    if n == 0 {
        Seq::empty()
    } else {
        pads_spots(pads, (n - 1) as nat) + corners(
            pads[n - 1].center,
            pads[n - 1].size_x,
            pads[n - 1].size_y,
        )
    }
}

/// The places of the first `n` drawings.
pub open spec fn graphics_spots(graphics: Seq<Graphic>, n: nat) -> Seq<Spot>
    decreases n,
{
    if n == 0 {
        Seq::empty()
    } else {
        graphics_spots(graphics, (n - 1) as nat) + graphic_spots(graphics[n - 1])
    }
}

/// A rectangle in half nanometres.
pub struct HullView {
    pub min_x: int,
    pub min_y: int,
    pub max_x: int,
    pub max_y: int,
}

/// The smallest rectangle round these places.
pub open spec fn hull_of(spots: Seq<Spot>) -> Option<HullView>
    decreases spots.len(),
{
    if spots.len() == 0 {
        None
    } else {
        Some(widened(hull_of(spots.drop_last()), spots.last()))
    }
}

/// The rectangle with one more place in it.
pub open spec fn widened(hull: Option<HullView>, at: Spot) -> HullView {
    match hull {
        None => HullView { min_x: at.x, min_y: at.y, max_x: at.x, max_y: at.y },
        Some(hull) => HullView {
            min_x: if at.x < hull.min_x {
                at.x
            } else {
                hull.min_x
            },
            min_y: if at.y < hull.min_y {
                at.y
            } else {
                hull.min_y
            },
            max_x: if at.x > hull.max_x {
                at.x
            } else {
                hull.max_x
            },
            max_y: if at.y > hull.max_y {
                at.y
            } else {
                hull.max_y
            },
        },
    }
}

/// A side of the rectangle in nanometres, not below the least extent.
pub open spec fn side(low: int, high: int) -> u64 {
    let length = (high - low) / 2;
    if length < LEAST_EXTENT {
        LEAST_EXTENT
    } else if length > u64::MAX {
        u64::MAX
    } else {
        length as u64
    }
}

/// The extent of a footprint.
pub open spec fn extent_of_parts(pads: Seq<PadOutline>, graphics: Seq<Graphic>) -> Extent {
    match hull_of(pads_spots(pads, pads.len()) + graphics_spots(graphics, graphics.len())) {
        None => Extent { width: DEFAULT_EXTENT, height: DEFAULT_EXTENT },
        Some(hull) => Extent {
            width: side(hull.min_x, hull.max_x),
            height: side(hull.min_y, hull.max_y),
        },
    }
}

/// A rectangle in half nanometres.
#[derive(Clone, Copy)]
struct Hull {
    min_x: i128,
    min_y: i128,
    max_x: i128,
    max_y: i128,
}

spec fn hull_view(hull: Option<Hull>) -> Option<HullView> {
    match hull {
        None => None,
        Some(hull) => Some(
            HullView {
                min_x: hull.min_x as int,
                min_y: hull.min_y as int,
                max_x: hull.max_x as int,
                max_y: hull.max_y as int,
            },
        ),
    }
}

/// The reach of a place: twice a 64-bit number and twice as much again.
spec fn within_reach(hull: Option<Hull>) -> bool {
    hull matches Some(h) ==> {
        &&& -0x8_0000_0000_0000_0000 <= h.min_x <= h.max_x <= 0x8_0000_0000_0000_0000
        &&& -0x8_0000_0000_0000_0000 <= h.min_y <= h.max_y <= 0x8_0000_0000_0000_0000
    }
}

fn widen(hull: Option<Hull>, x: i128, y: i128, Ghost(before): Ghost<Seq<Spot>>) -> (res: Option<
    Hull,
>)
    requires
        within_reach(hull),
        hull_view(hull) == hull_of(before),
        -0x8_0000_0000_0000_0000 <= x <= 0x8_0000_0000_0000_0000,
        -0x8_0000_0000_0000_0000 <= y <= 0x8_0000_0000_0000_0000,
    ensures
        within_reach(res),
        hull_view(res) == hull_of(before.push(Spot { x: x as int, y: y as int })),
{
    proof {
        let at = Spot { x: x as int, y: y as int };
        assert(before.push(at).drop_last() =~= before);
        assert(before.push(at).last() == at);
    }
    match hull {
        None => Some(Hull { min_x: x, min_y: y, max_x: x, max_y: y }),
        Some(hull) => Some(
            Hull {
                min_x: if x < hull.min_x {
                    x
                } else {
                    hull.min_x
                },
                min_y: if y < hull.min_y {
                    y
                } else {
                    hull.min_y
                },
                max_x: if x > hull.max_x {
                    x
                } else {
                    hull.max_x
                },
                max_y: if y > hull.max_y {
                    y
                } else {
                    hull.max_y
                },
            },
        ),
    }
}

fn widen_point(hull: Option<Hull>, point: Point, Ghost(before): Ghost<Seq<Spot>>) -> (res: Option<
    Hull,
>)
    requires
        within_reach(hull),
        hull_view(hull) == hull_of(before),
    ensures
        within_reach(res),
        hull_view(res) == hull_of(before.push(spot(point))),
{
    widen(hull, 2 * point.x as i128, 2 * point.y as i128, Ghost(before))
}

fn widen_corners(
    hull: Option<Hull>,
    center: Point,
    reach_x: i128,
    reach_y: i128,
    Ghost(before): Ghost<Seq<Spot>>,
) -> (res: Option<Hull>)
    requires
        within_reach(hull),
        hull_view(hull) == hull_of(before),
        0 <= reach_x <= 0x2_0000_0000_0000_0000,
        0 <= reach_y <= 0x2_0000_0000_0000_0000,
    ensures
        within_reach(res),
        hull_view(res) == hull_of(
            before + seq![
                Spot { x: 2 * center.x - reach_x, y: 2 * center.y - reach_y },
                Spot { x: 2 * center.x + reach_x, y: 2 * center.y + reach_y },
            ],
        ),
{
    let x: i128 = 2 * center.x as i128;
    let y: i128 = 2 * center.y as i128;
    let ghost low = Spot { x: x - reach_x, y: y - reach_y };
    let ghost high = Spot { x: x + reach_x, y: y + reach_y };
    let first = widen(hull, x - reach_x, y - reach_y, Ghost(before));
    assert(before + seq![low, high] =~= before.push(low).push(high));
    widen(first, x + reach_x, y + reach_y, Ghost(before.push(low)))
}

fn widen_graphic(
    hull: Option<Hull>,
    graphic: &Graphic,
    Ghost(before): Ghost<Seq<Spot>>,
) -> (res: Option<Hull>)
    requires
        within_reach(hull),
        hull_view(hull) == hull_of(before),
    ensures
        within_reach(res),
        hull_view(res) == hull_of(before + graphic_spots(*graphic)),
{
    match graphic {
        Graphic::Line { start, end } => {
            let first = widen_point(hull, *start, Ghost(before));
            assert(before + graphic_spots(*graphic) =~= before.push(spot(*start)).push(
                spot(*end),
            ));
            widen_point(first, *end, Ghost(before.push(spot(*start))))
        },
        Graphic::Rect { start, end } => {
            let first = widen_point(hull, *start, Ghost(before));
            assert(before + graphic_spots(*graphic) =~= before.push(spot(*start)).push(
                spot(*end),
            ));
            widen_point(first, *end, Ghost(before.push(spot(*start))))
        },
        Graphic::Circle { center, radius } => widen_corners(
            hull,
            *center,
            2 * (*radius as i128),
            2 * (*radius as i128),
            Ghost(before),
        ),
        Graphic::Arc { start, mid, end } => {
            let first = widen_point(hull, *start, Ghost(before));
            let second = widen_point(first, *mid, Ghost(before.push(spot(*start))));
            assert(before + graphic_spots(*graphic) =~= before.push(spot(*start)).push(
                spot(*mid),
            ).push(spot(*end)));
            widen_point(second, *end, Ghost(before.push(spot(*start)).push(spot(*mid))))
        },
        Graphic::Poly { points } => {
            let ghost all = graphic_spots(*graphic);
            let mut res = hull;
            let mut i: usize = 0;
            assert(before + all.take(0) =~= before);
            while i < points.len()
                invariant
                    i <= points@.len(),
                    all == Seq::new(points@.len(), |i: int| spot(points@[i])),
                    within_reach(res),
                    hull_view(res) == hull_of(before + all.take(i as int)),
                decreases points@.len() - i,
            {
                res = widen_point(res, points[i], Ghost(before + all.take(i as int)));
                assert(before + all.take(i + 1) =~= (before + all.take(i as int)).push(
                    spot(points@[i as int]),
                ));
                i += 1;
            }
            assert(all.take(i as int) =~= all);
            res
        },
        Graphic::Text { position, size } => widen_corners(
            hull,
            *position,
            *size as i128,
            *size as i128,
            Ghost(before),
        ),
    }
}

fn side_of(low: i128, high: i128) -> (res: u64)
    requires
        -0x8_0000_0000_0000_0000 <= low <= high <= 0x8_0000_0000_0000_0000,
    ensures
        res == side(low as int, high as int),
{
    let length: i128 = (high - low) / 2;
    if length < LEAST_EXTENT as i128 {
        LEAST_EXTENT
    } else if length > u64::MAX as i128 {
        u64::MAX
    } else {
        length as u64
    }
}

/// The size of the rectangle round the pads and drawings of a footprint; one
/// with neither has the default extent.
pub fn footprint_dimensions(pads: &Vec<PadOutline>, graphics: &Vec<Graphic>) -> (res: Extent)
    ensures
        res == extent_of_parts(pads@, graphics@),
{
    let mut hull: Option<Hull> = None;
    let mut i: usize = 0;
    while i < pads.len()
        invariant
            i <= pads@.len(),
            within_reach(hull),
            hull_view(hull) == hull_of(pads_spots(pads@, i as nat)),
        decreases pads@.len() - i,
    {
        let pad = pads[i];
        hull = widen_corners(
            hull,
            pad.center,
            pad.size_x as i128,
            pad.size_y as i128,
            Ghost(pads_spots(pads@, i as nat)),
        );
        i += 1;
    }
    let ghost start = pads_spots(pads@, pads@.len());
    let mut k: usize = 0;
    assert(start + graphics_spots(graphics@, 0) =~= start);
    while k < graphics.len()
        invariant
            k <= graphics@.len(),
            within_reach(hull),
            hull_view(hull) == hull_of(start + graphics_spots(graphics@, k as nat)),
        decreases graphics@.len() - k,
    {
        let ghost before = start + graphics_spots(graphics@, k as nat);
        hull = widen_graphic(hull, &graphics[k], Ghost(before));
        assert(before + graphic_spots(graphics@[k as int]) =~= start + graphics_spots(
            graphics@,
            (k + 1) as nat,
        ));
        k += 1;
    }
    match hull {
        None => Extent { width: DEFAULT_EXTENT, height: DEFAULT_EXTENT },
        Some(hull) => Extent {
            width: side_of(hull.min_x, hull.max_x),
            height: side_of(hull.min_y, hull.max_y),
        },
    }
}

/// The rectangle holds every place that it was made from.
pub proof fn law_hull_holds_every_spot(spots: Seq<Spot>, i: int)
    requires
        0 <= i < spots.len(),
    ensures
        hull_of(spots) matches Some(hull) && hull.min_x <= spots[i].x <= hull.max_x && hull.min_y
            <= spots[i].y <= hull.max_y,
    decreases spots.len(),
{
    if i < spots.len() - 1 {
        assert(spots.drop_last()[i] == spots[i]);
        law_hull_holds_every_spot(spots.drop_last(), i);
    }
}

} // verus!
