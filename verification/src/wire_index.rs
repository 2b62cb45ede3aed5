//! Wires in buckets by the coordinate that they hold constant: a horizontal
//! wire can only be met in its own row, a vertical one in its own column.

use crate::geometry::{
    distance, is_horizontal, is_vertical, lemma_near_strips, on_interior, on_wire, point_on_wire,
    points_coincident, strip, strip_of, Wire,
};
use std::collections::HashMap;
use vstd::prelude::*;

verus! {

broadcast use vstd::std_specs::hash::group_hash_axioms;

/// The positions of those of the first `n` wires that belong to a column
/// (`columns`) or a row.
spec fn in_strip(wires: Seq<Wire>, tol: int, columns: bool, cell: int, n: nat) -> Seq<usize>
    decreases n,
{
    if n == 0 {
        Seq::empty()
    } else {
        let rest = in_strip(wires, tol, columns, cell, (n - 1) as nat);
        if belongs(wires[n - 1], tol, columns, cell) {
            rest.push((n - 1) as usize)
        } else {
            rest
        }
    }
}

/// The wire belongs to a column, or to a row.
spec fn belongs(wire: Wire, tol: int, columns: bool, cell: int) -> bool {
    if columns {
        is_vertical(wire, tol) && strip(wire.x1 as int, tol) == cell
    } else {
        is_horizontal(wire, tol) && strip(wire.y1 as int, tol) == cell
    }
}

proof fn lemma_in_strip(
    wires: Seq<Wire>,
    tol: int,
    columns: bool,
    cell: int,
    n: nat,
)
    requires
        n <= wires.len() <= usize::MAX,
    ensures
        in_strip(wires, tol, columns, cell, n).no_duplicates(),
        forall|i: int|
            0 <= i < in_strip(wires, tol, columns, cell, n).len() ==> (#[trigger] in_strip(
                wires,
                tol,
                columns,
                cell,
                n,
            )[i]) < n && belongs(
                wires[in_strip(wires, tol, columns, cell, n)[i] as int],
                tol,
                columns,
                cell,
            ),
        forall|w: usize|
            w < n && belongs(wires[w as int], tol, columns, cell) ==> #[trigger] in_strip(
                wires,
                tol,
                columns,
                cell,
                n,
            ).contains(w),
    decreases n,
{
    if n > 0 {
        lemma_in_strip(wires, tol, columns, cell, (n - 1) as nat);
        let rest = in_strip(wires, tol, columns, cell, (n - 1) as nat);
        let list = in_strip(wires, tol, columns, cell, n);
        assert forall|w: usize|
            w < n && belongs(wires[w as int], tol, columns, cell) implies #[trigger] list.contains(
            w,
        ) by {
            if w == n - 1 {
                assert(list[list.len() - 1] == w);
            } else {
                assert(rest.contains(w));
                let i = rest.index_of(w);
                assert(list[i] == w);
            }
        }
    }
}

spec fn strip_holds(
    buckets: Map<i64, Vec<usize>>,
    wires: Seq<Wire>,
    tol: int,
    columns: bool,
    n: nat,
    cell: i64,
) -> bool {
    let own = in_strip(wires, tol, columns, cell as int, n);
    if buckets.contains_key(cell) {
        buckets[cell]@ == own
    } else {
        own.len() == 0
    }
}

spec fn strips_hold(
    buckets: Map<i64, Vec<usize>>,
    wires: Seq<Wire>,
    tol: int,
    columns: bool,
    n: nat,
) -> bool {
    forall|cell: i64| #[trigger] strip_holds(buckets, wires, tol, columns, n, cell)
}

/// Wires in buckets by row and column.
pub struct WireIndex<'a> {
    tol: i64,
    wires: &'a Vec<Wire>,
    rows: HashMap<i64, Vec<usize>>,
    columns: HashMap<i64, Vec<usize>>,
}

/// The `k`-th of the six strips round a place: a column and a row for each of
/// three neighbours.
spec fn probe(cell_x: int, cell_y: int, k: int) -> (bool, int) {
    if k % 2 == 0 {
        (true, cell_x + k / 2 - 1)
    } else {
        (false, cell_y + k / 2 - 1)
    }
}

/// The wire belongs to one of the first `n` strips round a place.
spec fn probed(wire: Wire, tol: int, cell_x: int, cell_y: int, n: int) -> bool {
    exists|k: int|
        0 <= k < n && belongs(
            wire,
            tol,
            (#[trigger] probe(cell_x, cell_y, k)).0,
            probe(cell_x, cell_y, k).1,
        )
}

proof fn lemma_probe_once(wire: Wire, tol: int, cell_x: int, cell_y: int, j: int, k: int)
    requires
        0 <= j < k < 6,
        belongs(wire, tol, probe(cell_x, cell_y, j).0, probe(cell_x, cell_y, j).1),
    ensures
        !belongs(wire, tol, probe(cell_x, cell_y, k).0, probe(cell_x, cell_y, k).1),
{
}

/// A wire through a place belongs to one of the six strips round it.
proof fn lemma_six_strips(wire: Wire, x: int, y: int, tol: int)
    requires
        tol > 0,
        on_wire(wire, x, y, tol),
    ensures
        probed(wire, tol, strip(x, tol), strip(y, tol), 6),
{
    let (cell_x, cell_y) = (strip(x, tol), strip(y, tol));
    if is_vertical(wire, tol) {
        lemma_near_strips(x, wire.x1 as int, tol);
        let k = 2 * (strip(wire.x1 as int, tol) - cell_x + 1);
        assert(probe(cell_x, cell_y, k) == (true, strip(wire.x1 as int, tol)));
    } else {
        lemma_near_strips(y, wire.y1 as int, tol);
        let k = 2 * (strip(wire.y1 as int, tol) - cell_y + 1) + 1;
        assert(probe(cell_x, cell_y, k) == (false, strip(wire.y1 as int, tol)));
    }
}

/// The list holds exactly the positions of the wires through a place, each
/// once.
pub open spec fn lists_hits(list: Seq<usize>, wires: Seq<Wire>, x: int, y: int, tol: int) -> bool {
    &&& list.no_duplicates()
    &&& forall|i: int| 0 <= i < list.len() ==> (#[trigger] list[i]) < wires.len()
    &&& forall|w: usize|
        w < wires.len() ==> (#[trigger] list.contains(w) <==> on_wire(wires[w as int], x, y, tol))
}

fn add_to(buckets: &mut HashMap<i64, Vec<usize>>, cell: i64, position: usize)
    ensures
        final(buckets)@.dom() == old(buckets)@.dom().insert(cell),
        final(buckets)@[cell]@ == (if old(buckets)@.contains_key(cell) {
            old(buckets)@[cell]@
        } else {
            Seq::empty()
        }).push(position),
        forall|other: i64|
            other != cell && old(buckets)@.contains_key(other) ==> (#[trigger] final(buckets)@[other])
                == old(buckets)@[other],
{
    let ghost before = buckets@;
    let mut bucket: Vec<usize> = match buckets.remove(&cell) {
        Some(bucket) => bucket,
        None => Vec::new(),
    };
    assert(bucket@ =~= (if before.contains_key(cell) {
        before[cell]@
    } else {
        Seq::empty()
    }));
    bucket.push(position);
    buckets.insert(cell, bucket);
    assert(buckets@.dom() =~= before.dom().insert(cell));
}

proof fn lemma_strips_grow(
    before: Map<i64, Vec<usize>>,
    after: Map<i64, Vec<usize>>,
    wires: Seq<Wire>,
    tol: int,
    columns: bool,
    n: nat,
    own: Option<i64>,
)
    requires
        n < wires.len() <= usize::MAX,
        strips_hold(before, wires, tol, columns, n),
        forall|cell: i64|
            (own == Some(cell)) == #[trigger] belongs(wires[n as int], tol, columns, cell as int),
        match own {
            None => after == before,
            Some(cell) => {
                &&& after.dom() == before.dom().insert(cell)
                &&& after[cell]@ == (if before.contains_key(cell) {
                    before[cell]@
                } else {
                    Seq::empty()
                }).push(n as usize)
                &&& forall|other: i64|
                    other != cell && before.contains_key(other) ==> #[trigger] after[other]
                        == before[other]
            },
        },
    ensures
        strips_hold(after, wires, tol, columns, n + 1),
{
    assert forall|cell: i64| #[trigger] strip_holds(after, wires, tol, columns, n + 1, cell) by {
        assert(strip_holds(before, wires, tol, columns, n, cell));
        assert((own == Some(cell)) == belongs(wires[n as int], tol, columns, cell as int));
        if own == Some(cell) {
            let base = in_strip(wires, tol, columns, cell as int, n);
            if !before.contains_key(cell) {
                assert(base =~= Seq::empty());
            }
        } else if before.contains_key(cell) {
            if let Some(other) = own {
                assert(after[cell] == before[cell]);
            }
        }
    }
}

impl<'a> WireIndex<'a> {
    /// The wires of the index.
    pub closed spec fn indexed(self) -> Seq<Wire> {
        self.wires@
    }

    /// The tolerance of the index.
    pub closed spec fn tolerance_spec(self) -> int {
        self.tol as int
    }

    #[verifier::type_invariant]
    spec fn inv(self) -> bool {
        &&& self.tol > 0
        &&& self.wires@.len() <= usize::MAX
        &&& strips_hold(self.columns@, self.wires@, self.tol as int, true, self.wires@.len())
        &&& strips_hold(self.rows@, self.wires@, self.tol as int, false, self.wires@.len())
    }

    /// The tolerance of the index.
    pub fn tolerance(&self) -> (res: i64)
        ensures
            res == self.tolerance_spec(),
            res > 0,
    {
        proof {
            use_type_invariant(self);
        }
        self.tol
    }

    /// Puts wires into buckets; a diagonal one is left out.
    pub fn build(wires: &'a Vec<Wire>, tol: i64) -> (res: WireIndex<'a>)
        requires
            tol > 0,
        ensures
            res.indexed() == wires@,
            res.tolerance_spec() == tol,
    {
        let mut rows: HashMap<i64, Vec<usize>> = HashMap::new();
        let mut columns: HashMap<i64, Vec<usize>> = HashMap::new();
        let count: usize = wires.len();
        let mut i: usize = 0;
        assert(strips_hold(columns@, wires@, tol as int, true, 0));
        assert(strips_hold(rows@, wires@, tol as int, false, 0));
        while i < count
            invariant
                i <= count,
                count == wires@.len(),
                tol > 0,
                strips_hold(columns@, wires@, tol as int, true, i as nat),
                strips_hold(rows@, wires@, tol as int, false, i as nat),
            decreases wires@.len() - i,
        {
            let wire = &wires[i];
            let ghost old_columns = columns@;
            let ghost old_rows = rows@;
            if distance(wire.x1, wire.x2) < tol as i128 {
                let cell: i64 = strip_of(wire.x1, tol);
                add_to(&mut columns, cell, i);
                proof {
                    lemma_strips_grow(
                        old_columns,
                        columns@,
                        wires@,
                        tol as int,
                        true,
                        i as nat,
                        Some(cell),
                    );
                    lemma_strips_grow(
                        old_rows,
                        rows@,
                        wires@,
                        tol as int,
                        false,
                        i as nat,
                        None,
                    );
                }
            } else if distance(wire.y1, wire.y2) < tol as i128 {
                let cell: i64 = strip_of(wire.y1, tol);
                add_to(&mut rows, cell, i);
                proof {
                    lemma_strips_grow(
                        old_columns,
                        columns@,
                        wires@,
                        tol as int,
                        true,
                        i as nat,
                        None,
                    );
                    lemma_strips_grow(
                        old_rows,
                        rows@,
                        wires@,
                        tol as int,
                        false,
                        i as nat,
                        Some(cell),
                    );
                }
            } else {
                proof {
                    lemma_strips_grow(
                        old_columns,
                        columns@,
                        wires@,
                        tol as int,
                        true,
                        i as nat,
                        None,
                    );
                    lemma_strips_grow(
                        old_rows,
                        rows@,
                        wires@,
                        tol as int,
                        false,
                        i as nat,
                        None,
                    );
                }
            }
            i += 1;
        }
        WireIndex { tol, wires, rows, columns }
    }

    /// The positions of the wires that pass through a place.
    pub fn hits(&self, x: i64, y: i64) -> (res: Vec<usize>)
        ensures
            lists_hits(res@, self.indexed(), x as int, y as int, self.tolerance_spec()),
    {
        proof {
            use_type_invariant(self);
        }
        let tol: i64 = self.tol;
        let cell_x: i64 = strip_of(x, tol);
        let cell_y: i64 = strip_of(y, tol);
        let mut res: Vec<usize> = Vec::new();
        let mut k: i64 = 0;
        let ghost wires = self.wires@;
        while k < 6
            invariant
                0 <= k <= 6,
                tol > 0,
                tol == self.tol,
                wires == self.wires@,
                wires.len() <= usize::MAX,
                cell_x == strip(x as int, tol as int),
                cell_y == strip(y as int, tol as int),
                strips_hold(self.columns@, wires, tol as int, true, wires.len()),
                strips_hold(self.rows@, wires, tol as int, false, wires.len()),
                hits_so_far(res@, wires, x as int, y as int, tol as int, k as int),
            decreases 6 - k,
        {
            let near: i128 = if k % 2 == 0 {
                cell_x as i128 + (k / 2 - 1) as i128
            } else {
                cell_y as i128 + (k / 2 - 1) as i128
            };
            let ghost (is_column, cell) = probe(cell_x as int, cell_y as int, k as int);
            if near >= i64::MIN as i128 && near <= i64::MAX as i128 {
                let near_cell: i64 = near as i64;
                let found: Option<&Vec<usize>> = if k % 2 == 0 {
                    self.columns.get(&near_cell)
                } else {
                    self.rows.get(&near_cell)
                };
                proof {
                    lemma_in_strip(wires, tol as int, is_column, cell, wires.len());
                    assert(strip_holds(
                        self.columns@,
                        wires,
                        tol as int,
                        true,
                        wires.len(),
                        near_cell,
                    ));
                    assert(strip_holds(
                        self.rows@,
                        wires,
                        tol as int,
                        false,
                        wires.len(),
                        near_cell,
                    ));
                }
                match found {
                    Some(bucket) => {
                        self.take_hits(
                            bucket,
                            x,
                            y,
                            &mut res,
                            Ghost(k as int),
                            Ghost(cell_x as int),
                            Ghost(cell_y as int),
                        );
                    },
                    None => {
                        proof {
                            lemma_empty_probe(
                                res@,
                                wires,
                                x as int,
                                y as int,
                                tol as int,
                                k as int,
                            );
                        }
                    },
                }
            } else {
                proof {
                    lemma_far_strip(wires, tol as int, is_column, cell, wires.len());
                    lemma_in_strip(wires, tol as int, is_column, cell, wires.len());
                    lemma_empty_probe(res@, wires, x as int, y as int, tol as int, k as int);
                }
            }
            k += 1;
        }
        proof {
            assert forall|w: usize| w < wires.len() implies (#[trigger] res@.contains(w)
                <==> on_wire(wires[w as int], x as int, y as int, tol as int)) by {
                if on_wire(wires[w as int], x as int, y as int, tol as int) {
                    lemma_six_strips(wires[w as int], x as int, y as int, tol as int);
                }
            }
        }
        res
    }

    fn take_hits(
        &self,
        bucket: &Vec<usize>,
        x: i64,
        y: i64,
        res: &mut Vec<usize>,
        Ghost(k): Ghost<int>,
        Ghost(cell_x): Ghost<int>,
        Ghost(cell_y): Ghost<int>,
    )
        requires
            0 <= k < 6,
            self.tol > 0,
            self.wires@.len() <= usize::MAX,
            cell_x == strip(x as int, self.tol as int),
            cell_y == strip(y as int, self.tol as int),
            bucket@ == in_strip(
                self.wires@,
                self.tol as int,
                probe(cell_x, cell_y, k).0,
                probe(cell_x, cell_y, k).1,
                self.wires@.len(),
            ),
            hits_so_far(old(res)@, self.wires@, x as int, y as int, self.tol as int, k),
        ensures
            hits_so_far(final(res)@, self.wires@, x as int, y as int, self.tol as int, k + 1),
    {
        let ghost wires = self.wires@;
        let ghost start = res@;
        let ghost (is_column, cell) = probe(cell_x, cell_y, k);
        let tol: i64 = self.tol;
        proof {
            lemma_in_strip(wires, tol as int, is_column, cell, wires.len());
        }
        let mut i: usize = 0;
        while i < bucket.len()
            invariant
                i <= bucket@.len(),
                tol == self.tol,
                wires == self.wires@,
                bucket@.no_duplicates(),
                forall|j: int|
                    0 <= j < bucket@.len() ==> (#[trigger] bucket@[j]) < wires.len() && belongs(
                        wires[bucket@[j] as int],
                        tol as int,
                        is_column,
                        cell,
                    ),
                forall|j: int|
                    0 <= j < bucket@.len() ==> !start.contains(#[trigger] bucket@[j]),
                res@.no_duplicates(),
                forall|j: int| 0 <= j < res@.len() ==> (#[trigger] res@[j]) < wires.len(),
                forall|w: usize| #[trigger]
                    res@.contains(w) <==> (start.contains(w) || (bucket@.take(i as int).contains(w)
                        && on_wire(wires[w as int], x as int, y as int, tol as int))),
            decreases bucket@.len() - i,
        {
            let position: usize = bucket[i];
            let ghost before = res@;
            assert(bucket@[i as int] == position);
            assert(bucket@.take(i + 1) =~= bucket@.take(i as int).push(position));
            assert(!bucket@.take(i as int).contains(position)) by {
                if bucket@.take(i as int).contains(position) {
                    let j = bucket@.take(i as int).index_of(position);
                    assert(bucket@[j] == position);
                }
            }
            assert(!before.contains(position));
            if point_on_wire(&self.wires[position], x, y, tol) {
                res.push(position);
            }
            proof {
                assert forall|w: usize| #[trigger]
                    res@.contains(w) <==> (start.contains(w) || (bucket@.take(i + 1).contains(w)
                        && on_wire(wires[w as int], x as int, y as int, tol as int))) by {
                    lemma_push_contains(bucket@.take(i as int), position, w);
                    lemma_push_contains(before, position, w);
                    assert(before.contains(w) <==> (start.contains(w) || (bucket@.take(
                        i as int,
                    ).contains(w) && on_wire(wires[w as int], x as int, y as int, tol as int))));
                }
            }
            i += 1;
        }
        proof {
            assert(bucket@.take(i as int) =~= bucket@);
            assert forall|w: usize| w < wires.len() implies (#[trigger] res@.contains(w) <==> (
            on_wire(wires[w as int], x as int, y as int, tol as int) && probed(
                wires[w as int],
                tol as int,
                cell_x,
                cell_y,
                k + 1,
            ))) by {
                let wire = wires[w as int];
                assert(start.contains(w) <==> (on_wire(wire, x as int, y as int, tol as int)
                    && probed(wire, tol as int, cell_x, cell_y, k)));
                lemma_probed_step(wire, tol as int, cell_x, cell_y, k);
                assert(bucket@.contains(w) <==> belongs(wire, tol as int, is_column, cell)) by {
                    if bucket@.contains(w) {
                        let j = bucket@.index_of(w);
                        assert(bucket@[j] == w);
                    }
                }
            }
        }
    }

    /// Whether a place lies anywhere on a wire, the ends included.
    pub fn covers(&self, x: i64, y: i64) -> (res: bool)
        ensures
            res == (exists|w: int|
                0 <= w < self.indexed().len() && on_wire(
                    #[trigger] self.indexed()[w],
                    x as int,
                    y as int,
                    self.tolerance_spec(),
                )),
    {
        proof {
            use_type_invariant(self);
        }
        let hits = self.hits(x, y);
        proof {
            if hits@.len() > 0 {
                assert(hits@.contains(hits@[0]));
                assert(on_wire(
                    self.indexed()[hits@[0] as int],
                    x as int,
                    y as int,
                    self.tolerance_spec(),
                ));
            } else {
                assert forall|w: int| 0 <= w < self.indexed().len() implies !on_wire(
                    #[trigger] self.indexed()[w],
                    x as int,
                    y as int,
                    self.tolerance_spec(),
                ) by {
                    assert(!hits@.contains(w as usize));
                }
            }
        }
        hits.len() > 0
    }

    /// Whether a place lies on the interior of a wire: a crossing that KiCad
    /// connects without splitting the wire.
    pub fn covers_interior(&self, x: i64, y: i64) -> (res: bool)
        ensures
            res == (exists|w: int|
                0 <= w < self.indexed().len() && on_interior(
                    #[trigger] self.indexed()[w],
                    x as int,
                    y as int,
                    self.tolerance_spec(),
                )),
    {
        proof {
            use_type_invariant(self);
        }
        let hits = self.hits(x, y);
        let mut i: usize = 0;
        while i < hits.len()
            invariant
                i <= hits@.len(),
                lists_hits(hits@, self.indexed(), x as int, y as int, self.tolerance_spec()),
                forall|j: int|
                    0 <= j < i ==> !on_interior(
                        self.indexed()[#[trigger] hits@[j] as int],
                        x as int,
                        y as int,
                        self.tolerance_spec(),
                    ),
            decreases hits@.len() - i,
        {
            let wire = &self.wires[hits[i]];
            assert(hits@.contains(hits@[i as int]));
            if !points_coincident(x, y, wire.x1, wire.y1, self.tol) && !points_coincident(
                x,
                y,
                wire.x2,
                wire.y2,
                self.tol,
            ) {
                assert(on_interior(
                    self.indexed()[hits@[i as int] as int],
                    x as int,
                    y as int,
                    self.tolerance_spec(),
                ));
                return true;
            }
            i += 1;
        }
        proof {
            assert forall|w: int| 0 <= w < self.indexed().len() implies !on_interior(
                #[trigger] self.indexed()[w],
                x as int,
                y as int,
                self.tolerance_spec(),
            ) by {
                if hits@.contains(w as usize) {
                    let j = hits@.index_of(w as usize);
                    assert(hits@[j] == w as usize);
                }
            }
        }
        false
    }
}

/// The list holds the hits among the wires of the first `k` strips.
spec fn hits_so_far(
    list: Seq<usize>,
    wires: Seq<Wire>,
    x: int,
    y: int,
    tol: int,
    k: int,
) -> bool {
    &&& list.no_duplicates()
    &&& forall|i: int| 0 <= i < list.len() ==> (#[trigger] list[i]) < wires.len()
    &&& forall|w: usize|
        w < wires.len() ==> (#[trigger] list.contains(w) <==> (on_wire(wires[w as int], x, y, tol)
            && probed(wires[w as int], tol, strip(x, tol), strip(y, tol), k)))
}

proof fn lemma_push_contains(list: Seq<usize>, value: usize, w: usize)
    ensures
        list.push(value).contains(w) == (list.contains(w) || w == value),
{
    if list.contains(w) {
        let i = list.index_of(w);
        assert(list.push(value)[i] == w);
    }
    if w == value {
        assert(list.push(value)[list.len() as int] == w);
    }
}

proof fn lemma_probed_step(wire: Wire, tol: int, cell_x: int, cell_y: int, k: int)
    requires
        0 <= k < 6,
    ensures
        probed(wire, tol, cell_x, cell_y, k + 1) == (probed(wire, tol, cell_x, cell_y, k)
            || belongs(wire, tol, probe(cell_x, cell_y, k).0, probe(cell_x, cell_y, k).1)),
        belongs(wire, tol, probe(cell_x, cell_y, k).0, probe(cell_x, cell_y, k).1) ==> !probed(
            wire,
            tol,
            cell_x,
            cell_y,
            k,
        ),
{
    if probed(wire, tol, cell_x, cell_y, k) {
        let j = choose|j: int|
            0 <= j < k && belongs(
                wire,
                tol,
                (#[trigger] probe(cell_x, cell_y, j)).0,
                probe(cell_x, cell_y, j).1,
            );
        assert(belongs(wire, tol, probe(cell_x, cell_y, j).0, probe(cell_x, cell_y, j).1));
        lemma_probe_once(wire, tol, cell_x, cell_y, j, k);
    }
}

proof fn lemma_empty_probe(
    list: Seq<usize>,
    wires: Seq<Wire>,
    x: int,
    y: int,
    tol: int,
    k: int,
)
    requires
        0 <= k < 6,
        wires.len() <= usize::MAX,
        hits_so_far(list, wires, x, y, tol, k),
        in_strip(
            wires,
            tol,
            probe(strip(x, tol), strip(y, tol), k).0,
            probe(strip(x, tol), strip(y, tol), k).1,
            wires.len(),
        ).len() == 0,
    ensures
        hits_so_far(list, wires, x, y, tol, k + 1),
{
    let (columns, cell) = probe(strip(x, tol), strip(y, tol), k);
    lemma_in_strip(wires, tol, columns, cell, wires.len());
    assert forall|w: usize| w < wires.len() implies (#[trigger] list.contains(w) <==> (on_wire(
        wires[w as int],
        x,
        y,
        tol,
    ) && probed(wires[w as int], tol, strip(x, tol), strip(y, tol), k + 1))) by {
        lemma_probed_step(wires[w as int], tol, strip(x, tol), strip(y, tol), k);
        if belongs(wires[w as int], tol, columns, cell) {
            assert(in_strip(wires, tol, columns, cell, wires.len()).contains(w));
        }
    }
}

/// No wire belongs to a strip whose number does not fit 64 bits.
proof fn lemma_far_strip(wires: Seq<Wire>, tol: int, columns: bool, cell: int, n: nat)
    requires
        tol > 0,
        n <= wires.len(),
        !(i64::MIN <= cell <= i64::MAX),
    ensures
        in_strip(wires, tol, columns, cell, n).len() == 0,
    decreases n,
{
    if n > 0 {
        lemma_far_strip(wires, tol, columns, cell, (n - 1) as nat);
        crate::point_index::lemma_strip_fits(wires[n - 1].x1 as int, tol);
        crate::point_index::lemma_strip_fits(wires[n - 1].y1 as int, tol);
    }
}

} // verus!
