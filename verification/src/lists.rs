//! Positions in lists.

use vstd::prelude::*;

verus! {

/// The positions below `n` with a property.
pub open spec fn positions_where(holds: spec_fn(int) -> bool, n: nat) -> Seq<int>
    decreases n,
{
    if n == 0 {
        Seq::empty()
    } else {
        let rest = positions_where(holds, (n - 1) as nat);
        if holds(n - 1) {
            rest.push(n - 1)
        } else {
            rest
        }
    }
}

/// Positions as numbers.
pub open spec fn ints(list: Seq<usize>) -> Seq<int> {
    Seq::new(list.len(), |i: int| list[i] as int)
}

/// Properties that hold at the same positions give the same positions.
pub proof fn lemma_same_positions(a: spec_fn(int) -> bool, b: spec_fn(int) -> bool, n: nat)
    requires
        forall|i: int| 0 <= i < n ==> #[trigger] a(i) == b(i),
    ensures
        positions_where(a, n) == positions_where(b, n),
    decreases n,
{
    if n > 0 {
        lemma_same_positions(a, b, (n - 1) as nat);
        assert(a(n - 1) == b(n - 1));
    }
}

/// A position is listed exactly if it has the property.
pub proof fn lemma_listed(list: Seq<int>, holds: spec_fn(int) -> bool, n: nat, k: int)
    requires
        list == positions_where(holds, n),
        0 <= k < n,
    ensures
        list.contains(k) == holds(k),
{
    lemma_positions(holds, n);
    if list.contains(k) {
        let i = list.index_of(k);
        assert(holds(list[i]));
    }
}

/// What the positions are.
pub proof fn lemma_positions(holds: spec_fn(int) -> bool, n: nat)
    ensures
        forall|i: int|
            0 <= i < positions_where(holds, n).len() ==> 0 <= (#[trigger] positions_where(
                holds,
                n,
            )[i]) < n && holds(positions_where(holds, n)[i]),
        forall|k: int|
            0 <= k < n && holds(k) ==> #[trigger] positions_where(holds, n).contains(k),
        forall|i: int, j: int|
            0 <= i < j < positions_where(holds, n).len() ==> (#[trigger] positions_where(
                holds,
                n,
            )[i]) < (#[trigger] positions_where(holds, n)[j]),
    decreases n,
{
    if n > 0 {
        lemma_positions(holds, (n - 1) as nat);
        let rest = positions_where(holds, (n - 1) as nat);
        let list = positions_where(holds, n);
        assert forall|k: int| 0 <= k < n && holds(k) implies #[trigger] list.contains(k) by {
            if k < n - 1 {
                assert(rest.contains(k));
                let i = rest.index_of(k);
                assert(list[i] == k);
            } else {
                assert(list[list.len() - 1] == k);
            }
        }
    }
}

} // verus!
