//! Points in buckets as wide as the coincidence tolerance, so that a lookup
//! probes nine of them and does not scan every point.

use crate::geometry::{
    coincident, is_pair, lemma_near_strips, lemma_pair_numbers_differ, pair_key, pair_number,
    points_coincident, strip, strip_of,
};
use std::collections::HashMap;
use vstd::prelude::*;

verus! {

broadcast use vstd::std_specs::hash::group_hash_axioms;

/// The bucket of a point.
pub open spec fn cell_of(point: (i64, i64), tol: int) -> (int, int) {
    (strip(point.0 as int, tol), strip(point.1 as int, tol))
}

/// How many of the points coincide with a place.
pub open spec fn count_near(points: Seq<(i64, i64)>, x: int, y: int, tol: int) -> nat
    decreases points.len(),
{
    if points.len() == 0 {
        0
    } else {
        count_near(points.drop_last(), x, y, tol) + if coincident(
            x,
            y,
            points.last().0 as int,
            points.last().1 as int,
            tol,
        ) {
            1nat
        } else {
            0
        }
    }
}

/// The points of one bucket.
spec fn in_cell(points: Seq<(i64, i64)>, tol: int, cell: (int, int)) -> Seq<(i64, i64)>
    decreases points.len(),
{
    if points.len() == 0 {
        Seq::empty()
    } else {
        let rest = in_cell(points.drop_last(), tol, cell);
        if cell_of(points.last(), tol) == cell {
            rest.push(points.last())
        } else {
            rest
        }
    }
}

/// The `k`-th of the nine buckets round the one of a place.
spec fn neighbour(center: (int, int), k: int) -> (int, int) {
    (center.0 + k / 3 - 1, center.1 + k % 3 - 1)
}

/// How many points of the first `k` buckets round a place coincide with it.
spec fn count_cells(points: Seq<(i64, i64)>, x: int, y: int, tol: int, k: nat) -> nat
    decreases k,
{
    if k == 0 {
        0
    } else {
        count_cells(points, x, y, tol, (k - 1) as nat) + count_near(
            in_cell(points, tol, neighbour((strip(x, tol), strip(y, tol)), k - 1)),
            x,
            y,
            tol,
        )
    }
}

/// What one more point adds to the count over the first `k` buckets.
proof fn lemma_one_more(
    points: Seq<(i64, i64)>,
    x: int,
    y: int,
    tol: int,
    k: nat,
)
    requires
        points.len() > 0,
        tol > 0,
        k <= 9,
    ensures
        count_cells(points, x, y, tol, k) == count_cells(points.drop_last(), x, y, tol, k) + (if (
        exists|j: int|
            0 <= j < k && cell_of(points.last(), tol) == #[trigger] neighbour(
                (strip(x, tol), strip(y, tol)),
                j,
            )) && coincident(x, y, points.last().0 as int, points.last().1 as int, tol) {
            1nat
        } else {
            0
        }),
    decreases k,
{
    let center = (strip(x, tol), strip(y, tol));
    let last = points.last();
    if k > 0 {
        lemma_one_more(points, x, y, tol, (k - 1) as nat);
        let cell = neighbour(center, k - 1);
        let before = in_cell(points.drop_last(), tol, cell);
        if cell_of(last, tol) == cell {
            assert(before.push(last).drop_last() =~= before);
            assert forall|j: int| 0 <= j < k - 1 implies #[trigger] neighbour(center, j)
                != cell by {
                assert(j == 3 * (j / 3) + j % 3);
                assert(k - 1 == 3 * ((k - 1) / 3) + (k - 1) % 3);
            }
        }
    }
}

/// The nine buckets round a place hold every point that coincides with it.
proof fn lemma_nine_cells(points: Seq<(i64, i64)>, x: int, y: int, tol: int)
    requires
        tol > 0,
    ensures
        count_cells(points, x, y, tol, 9) == count_near(points, x, y, tol),
    decreases points.len(),
{
    if points.len() > 0 {
        lemma_nine_cells(points.drop_last(), x, y, tol);
        lemma_one_more(points, x, y, tol, 9);
        let last = points.last();
        let center = (strip(x, tol), strip(y, tol));
        if coincident(x, y, last.0 as int, last.1 as int, tol) {
            lemma_near_strips(x, last.0 as int, tol);
            lemma_near_strips(y, last.1 as int, tol);
            let cell = cell_of(last, tol);
            let j = 3 * (cell.0 - center.0 + 1) + (cell.1 - center.1 + 1);
            assert(0 <= j < 9);
            assert(neighbour(center, j) == cell);
        }
    } else {
        lemma_no_points(points, x, y, tol, 9);
    }
}

proof fn lemma_no_points(points: Seq<(i64, i64)>, x: int, y: int, tol: int, k: nat)
    requires
        points.len() == 0,
    ensures
        count_cells(points, x, y, tol, k) == 0,
    decreases k,
{
    if k > 0 {
        lemma_no_points(points, x, y, tol, (k - 1) as nat);
    }
}

proof fn lemma_counts_grow(points: Seq<(i64, i64)>, x: int, y: int, tol: int, k: nat)
    requires
        k <= 9,
    ensures
        count_cells(points, x, y, tol, k) <= count_cells(points, x, y, tol, 9),
    decreases 9 - k,
{
    if k < 9 {
        lemma_counts_grow(points, x, y, tol, k + 1);
    }
}

proof fn lemma_count_bounded(points: Seq<(i64, i64)>, x: int, y: int, tol: int)
    ensures
        count_near(points, x, y, tol) <= points.len(),
    decreases points.len(),
{
    if points.len() > 0 {
        lemma_count_bounded(points.drop_last(), x, y, tol);
    }
}

/// Points in buckets as wide as the coincidence tolerance.
pub struct PointIndex {
    tol: i64,
    buckets: HashMap<i128, Vec<(i64, i64)>>,
    points: Ghost<Seq<(i64, i64)>>,
}

spec fn bucket_holds(
    buckets: Map<i128, Vec<(i64, i64)>>,
    points: Seq<(i64, i64)>,
    tol: int,
    cell: (int, int),
) -> bool {
    let key = pair_number(cell) as i128;
    let own = in_cell(points, tol, cell);
    if buckets.contains_key(key) {
        buckets[key]@ == own
    } else {
        own.len() == 0
    }
}

spec fn buckets_hold(
    buckets: Map<i128, Vec<(i64, i64)>>,
    points: Seq<(i64, i64)>,
    tol: int,
) -> bool {
    forall|cell: (int, int)| is_pair(cell) ==> #[trigger] bucket_holds(buckets, points, tol, cell)
}

impl PointIndex {
    /// The points of the index.
    pub closed spec fn indexed(self) -> Seq<(i64, i64)> {
        self.points@
    }

    /// The tolerance of the index.
    pub closed spec fn tolerance(self) -> int {
        self.tol as int
    }

    #[verifier::type_invariant]
    spec fn inv(self) -> bool {
        &&& self.tol > 0
        &&& self.points@.len() <= usize::MAX
        &&& buckets_hold(self.buckets@, self.points@, self.tol as int)
    }

    /// Puts points into buckets.
    pub fn build(points: &Vec<(i64, i64)>, tol: i64) -> (res: PointIndex)
        requires
            tol > 0,
        ensures
            res.indexed() == points@,
            res.tolerance() == tol,
    {
        let mut buckets: HashMap<i128, Vec<(i64, i64)>> = HashMap::new();
        let mut i: usize = 0;
        let ghost all = points@;
        assert(all.take(0) =~= Seq::empty());
        assert(buckets_hold(buckets@, all.take(0), tol as int));
        while i < points.len()
            invariant
                i <= points@.len(),
                tol > 0,
                all == points@,
                buckets_hold(buckets@, all.take(i as int), tol as int),
            decreases points@.len() - i,
        {
            let point = points[i];
            let cell_x: i64 = strip_of(point.0, tol);
            let cell_y: i64 = strip_of(point.1, tol);
            let key: i128 = pair_key(cell_x, cell_y);
            let ghost cell = (cell_x as int, cell_y as int);
            let ghost before = buckets@;
            let ghost old_points = all.take(i as int);
            let ghost new_points = all.take(i + 1);
            assert(bucket_holds(before, old_points, tol as int, cell));
            let mut bucket: Vec<(i64, i64)> = match buckets.remove(&key) {
                Some(bucket) => bucket,
                None => Vec::new(),
            };
            assert(bucket@ =~= in_cell(old_points, tol as int, cell));
            bucket.push(point);
            let ghost filled = bucket@;
            buckets.insert(key, bucket);
            proof {
                assert(new_points.drop_last() =~= old_points);
                assert(new_points.last() == point);
                assert forall|other: (int, int)| is_pair(other) implies #[trigger] bucket_holds(
                    buckets@,
                    new_points,
                    tol as int,
                    other,
                ) by {
                    assert(bucket_holds(before, old_points, tol as int, other));
                    if other == cell {
                        assert(buckets@[key]@ == filled);
                    } else {
                        if pair_number(other) == pair_number(cell) {
                            lemma_pair_numbers_differ(other, cell);
                        }
                    }
                }
            }
            i += 1;
        }
        assert(all.take(i as int) =~= all);
        PointIndex { tol, buckets, points: Ghost(points@) }
    }

    /// How many indexed points coincide with a place.
    pub fn count_at(&self, x: i64, y: i64) -> (res: usize)
        ensures
            res == count_near(self.indexed(), x as int, y as int, self.tolerance()),
    {
        proof {
            use_type_invariant(self);
        }
        let cell_x: i64 = strip_of(x, self.tol);
        let cell_y: i64 = strip_of(y, self.tol);
        let ghost all = self.points@;
        let ghost center = (cell_x as int, cell_y as int);
        let tol: i64 = self.tol;
        let mut found: usize = 0;
        let mut k: i64 = 0;
        proof {
            lemma_nine_cells(all, x as int, y as int, tol as int);
            lemma_count_bounded(all, x as int, y as int, tol as int);
        }
        while k < 9
            invariant
                0 <= k <= 9,
                tol > 0,
                tol == self.tol,
                all == self.points@,
                all.len() <= usize::MAX,
                center == (cell_x as int, cell_y as int),
                center == (strip(x as int, tol as int), strip(y as int, tol as int)),
                buckets_hold(self.buckets@, all, tol as int),
                found == count_cells(all, x as int, y as int, tol as int, k as nat),
                count_cells(all, x as int, y as int, tol as int, 9) <= all.len(),
            decreases 9 - k,
        {
            let ghost cell = neighbour(center, k as int);
            proof {
                lemma_counts_grow(all, x as int, y as int, tol as int, (k + 1) as nat);
            }
            let near_x: i128 = cell_x as i128 + (k / 3 - 1) as i128;
            let near_y: i128 = cell_y as i128 + (k % 3 - 1) as i128;
            if near_x >= i64::MIN as i128 && near_x <= i64::MAX as i128 && near_y
                >= i64::MIN as i128 && near_y <= i64::MAX as i128 {
                let key: i128 = pair_key(near_x as i64, near_y as i64);
                assert(bucket_holds(self.buckets@, all, tol as int, cell));
                if let Some(bucket) = self.buckets.get(&key) {
                    found = found + count_in(bucket, x, y, tol);
                }
            } else {
                proof {
                    lemma_empty_cell(all, tol as int, cell);
                }
            }
            k += 1;
        }
        found
    }

    /// Whether an indexed point coincides with a place.
    pub fn contains(&self, x: i64, y: i64) -> (res: bool)
        ensures
            res == (count_near(self.indexed(), x as int, y as int, self.tolerance()) > 0),
    {
        self.count_at(x, y) > 0
    }
}

/// No point falls into a bucket whose number does not fit 64 bits.
proof fn lemma_empty_cell(points: Seq<(i64, i64)>, tol: int, cell: (int, int))
    requires
        tol > 0,
        !is_pair(cell),
    ensures
        in_cell(points, tol, cell).len() == 0,
    decreases points.len(),
{
    if points.len() > 0 {
        lemma_empty_cell(points.drop_last(), tol, cell);
        lemma_strip_fits(points.last().0 as int, tol);
        lemma_strip_fits(points.last().1 as int, tol);
    }
}

pub proof fn lemma_strip_fits(value: int, tol: int)
    requires
        tol > 0,
        i64::MIN <= value <= i64::MAX,
    ensures
        i64::MIN <= strip(value, tol) <= i64::MAX,
{
    let q = value / tol;
    vstd::arithmetic::div_mod::lemma_fundamental_div_mod(value, tol);
    if q > i64::MAX {
        assert(tol * q >= q) by (nonlinear_arith)
            requires
                tol >= 1,
                q >= 0,
        ;
    } else if q < i64::MIN {
        assert(tol * q + tol <= q + 1) by (nonlinear_arith)
            requires
                tol >= 1,
                q <= -1,
        ;
    }
}

fn count_in(points: &Vec<(i64, i64)>, x: i64, y: i64, tol: i64) -> (res: usize)
    ensures
        res == count_near(points@, x as int, y as int, tol as int),
        res <= points@.len(),
{
    let mut found: usize = 0;
    let mut i: usize = 0;
    assert(points@.take(0) =~= Seq::empty());
    while i < points.len()
        invariant
            i <= points@.len(),
            found <= i,
            found == count_near(points@.take(i as int), x as int, y as int, tol as int),
        decreases points@.len() - i,
    {
        proof {
            assert(points@.take(i + 1).drop_last() =~= points@.take(i as int));
            assert(points@.take(i + 1).last() == points@[i as int]);
        }
        let point = points[i];
        if points_coincident(x, y, point.0, point.1, tol) {
            found += 1;
        }
        i += 1;
    }
    assert(points@.take(i as int) =~= points@);
    found
}

/// Some of the points coincides with a place exactly if the count is not zero.
pub proof fn law_count_near_finds(points: Seq<(i64, i64)>, x: int, y: int, tol: int)
    ensures
        (count_near(points, x, y, tol) > 0) == (exists|i: int|
            0 <= i < points.len() && coincident(
                x,
                y,
                (#[trigger] points[i]).0 as int,
                points[i].1 as int,
                tol,
            )),
    decreases points.len(),
{
    if points.len() > 0 {
        let rest = points.drop_last();
        law_count_near_finds(rest, x, y, tol);
        if count_near(rest, x, y, tol) > 0 {
            let i = choose|i: int|
                0 <= i < rest.len() && coincident(
                    x,
                    y,
                    (#[trigger] rest[i]).0 as int,
                    rest[i].1 as int,
                    tol,
                );
            assert(points[i] == rest[i]);
        }
        if exists|i: int|
            0 <= i < points.len() && coincident(
                x,
                y,
                (#[trigger] points[i]).0 as int,
                points[i].1 as int,
                tol,
            ) {
            let i = choose|i: int|
                0 <= i < points.len() && coincident(
                    x,
                    y,
                    (#[trigger] points[i]).0 as int,
                    points[i].1 as int,
                    tol,
                );
            if i < rest.len() {
                assert(rest[i] == points[i]);
            }
        }
        assert(points[points.len() - 1] == points.last());
    }
}

} // verus!
