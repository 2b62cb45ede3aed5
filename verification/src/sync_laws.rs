//! What holds of every schematic-to-board plan.

use crate::planner::plan_status;
use crate::sync_plan::{
    accepted, additions, all_changes, all_component_conflicts, all_skipped_conflicts, at_path,
    at_reference, board_conflicts, claimed, claimed_by_component, claimed_by_skipped,
    component_change, component_conflicts, component_ids, component_index, footprint_conflicts,
    has_path, needs_update, net_of, pad_blocked, pad_changes, pad_conflicts, pads_of,
    pads_reassigned, plan_conflicts, skipped_conflicts, skipped_ids, skipped_index, verdict,
    Verdict,
};
use crate::sync_types::{
    BoardFootprint, BoardState, DesignComponent, ExportedDesign, PlanStatus, PreservedView,
    SkippedComponent,
};
use crate::text::opt_text;
use vstd::prelude::*;

verus! {

/// No footprint belongs to two components.
pub proof fn law_one_component_per_footprint(
    design: ExportedDesign,
    board: BoardState,
    i: int,
    j: int,
    k: int,
)
    requires
        0 <= i < design.components@.len(),
        0 <= j < design.components@.len(),
        accepted(component_ids(design.components@), i),
        accepted(component_ids(design.components@), j),
        component_index(board.footprints@, design.components@[i]) == Some(k),
        component_index(board.footprints@, design.components@[j]) == Some(k),
    ensures
        i == j,
{
    if i < j {
        lemma_footprint_not_shared(design, board, i, j, k);
    } else if j < i {
        lemma_footprint_not_shared(design, board, j, i, k);
    }
}

proof fn lemma_distinct_ids(design: ExportedDesign, i: int, j: int)
    requires
        0 <= i < j < design.components@.len(),
        accepted(component_ids(design.components@), i),
        accepted(component_ids(design.components@), j),
    ensures
        design.components@[i].reference@ != design.components@[j].reference@,
        design.components@[i].symbol_path@ != design.components@[j].symbol_path@,
{
    let ids = component_ids(design.components@);
    assert(ids[i].reference == design.components@[i].reference@);
    assert(ids[i].path == design.components@[i].symbol_path@);
}

proof fn lemma_footprint_not_shared(
    design: ExportedDesign,
    board: BoardState,
    i: int,
    j: int,
    k: int,
)
    requires
        0 <= i < j < design.components@.len(),
        accepted(component_ids(design.components@), i),
        accepted(component_ids(design.components@), j),
        component_index(board.footprints@, design.components@[i]) == Some(k),
    ensures
        component_index(board.footprints@, design.components@[j]) != Some(k),
{
    lemma_distinct_ids(design, i, j);
    lemma_found(board.footprints@, design.components@[i].reference@);
    lemma_found(board.footprints@, design.components@[i].symbol_path@);
    lemma_found(board.footprints@, design.components@[j].reference@);
    lemma_found(board.footprints@, design.components@[j].symbol_path@);
}

/// What is found by a key has that key.
proof fn lemma_found(footprints: Seq<BoardFootprint>, key: Seq<char>)
    ensures
        at_reference(footprints, key) matches Some(k) ==> 0 <= k < footprints.len()
            && footprints[k].reference@ == key,
        at_path(footprints, key) matches Some(k) ==> 0 <= k < footprints.len() && has_path(
            footprints[k],
            key,
        ),
    decreases footprints.len(),
{
    if footprints.len() > 0 {
        lemma_found(footprints.drop_last(), key);
    }
}

/// What has a key is found by it.
proof fn lemma_finds(footprints: Seq<BoardFootprint>, key: Seq<char>, k: int)
    requires
        0 <= k < footprints.len(),
    ensures
        footprints[k].reference@ == key ==> at_reference(footprints, key) is Some,
        has_path(footprints[k], key) ==> at_path(footprints, key) is Some,
    decreases footprints.len(),
{
    if k < footprints.len() - 1 {
        assert(footprints.drop_last()[k] == footprints[k]);
        lemma_finds(footprints.drop_last(), key, k);
    }
}

/// No two footprints share a reference or an identity.
pub open spec fn unique_on_board(footprints: Seq<BoardFootprint>) -> bool {
    forall|j: int, k: int|
        0 <= j < k < footprints.len() ==> {
            &&& (#[trigger] footprints[j]).reference@ != (#[trigger] footprints[k]).reference@
            &&& footprints[j].symbol_path is Some ==> !has_path(
                footprints[k],
                footprints[j].symbol_path->0@,
            )
        }
}

/// A board is free of conflicts with itself exactly if no two of its
/// footprints share a reference or an identity.
pub proof fn law_board_conflicts_are_duplicates(footprints: Seq<BoardFootprint>)
    ensures
        (board_conflicts(footprints).len() == 0) == unique_on_board(footprints),
    decreases footprints.len(),
{
    if footprints.len() > 0 {
        let rest = footprints.drop_last();
        let last = footprints.last();
        law_board_conflicts_are_duplicates(rest);
        assert(board_conflicts(footprints).len() == board_conflicts(rest).len()
            + footprint_conflicts(rest, last).len());
        lemma_found(rest, last.reference@);
        if last.symbol_path is Some {
            lemma_found(rest, last.symbol_path->0@);
        }
        if unique_on_board(footprints) {
            assert forall|j: int, k: int| 0 <= j < k < rest.len() implies {
                &&& (#[trigger] rest[j]).reference@ != (#[trigger] rest[k]).reference@
                &&& rest[j].symbol_path is Some ==> !has_path(rest[k], rest[j].symbol_path->0@)
            } by {
                assert(rest[j] == footprints[j] && rest[k] == footprints[k]);
            }
            if at_reference(rest, last.reference@) is Some {
                let j = at_reference(rest, last.reference@)->0;
                assert(footprints[j] == rest[j]);
                assert(footprints[footprints.len() - 1] == last);
            }
            if last.symbol_path is Some && at_path(rest, last.symbol_path->0@) is Some {
                let j = at_path(rest, last.symbol_path->0@)->0;
                assert(footprints[j] == rest[j]);
                assert(footprints[footprints.len() - 1] == last);
            }
        } else if board_conflicts(footprints).len() == 0 {
            assert forall|j: int, k: int| 0 <= j < k < footprints.len() implies {
                &&& (#[trigger] footprints[j]).reference@ != (#[trigger] footprints[k]).reference@
                &&& footprints[j].symbol_path is Some ==> !has_path(
                    footprints[k],
                    footprints[j].symbol_path->0@,
                )
            } by {
                assert(footprints[j] == rest[j]);
                if k < rest.len() {
                    assert(footprints[k] == rest[k]);
                } else {
                    lemma_finds(rest, last.reference@, j);
                    if last.symbol_path is Some {
                        lemma_finds(rest, last.symbol_path->0@, j);
                    }
                }
            }
        }
    }
}

proof fn lemma_no_component_conflicts(design: ExportedDesign, board: BoardState, n: nat)
    ensures
        (all_component_conflicts(design, board, n).len() == 0) == (forall|i: int|
            0 <= i < n ==> (#[trigger] component_conflicts(design, board, i)).len() == 0),
    decreases n,
{
    if n > 0 {
        lemma_no_component_conflicts(design, board, (n - 1) as nat);
        assert(all_component_conflicts(design, board, n).len() == all_component_conflicts(
            design,
            board,
            (n - 1) as nat,
        ).len() + component_conflicts(design, board, n - 1).len());
    }
}

proof fn lemma_no_skipped_conflicts(
    footprints: Seq<BoardFootprint>,
    skipped: Seq<SkippedComponent>,
    n: nat,
)
    ensures
        (all_skipped_conflicts(footprints, skipped, n).len() == 0) == (forall|i: int|
            0 <= i < n ==> (#[trigger] skipped_conflicts(footprints, skipped, i)).len() == 0),
    decreases n,
{
    if n > 0 {
        lemma_no_skipped_conflicts(footprints, skipped, (n - 1) as nat);
        assert(all_skipped_conflicts(footprints, skipped, n).len() == all_skipped_conflicts(
            footprints,
            skipped,
            (n - 1) as nat,
        ).len() + skipped_conflicts(footprints, skipped, n - 1).len());
    }
}

proof fn lemma_pad_conflicts(
    board: BoardState,
    component: DesignComponent,
    footprint: BoardFootprint,
    pads: Seq<Seq<char>>,
)
    ensures
        (pad_conflicts(board, component, footprint, pads).len() == 0) == (forall|i: int|
            0 <= i < pads.len() ==> !pad_blocked(board, component, footprint, #[trigger] pads[i])),
        (pads_reassigned(board, component, footprint, pads) == 0) == (forall|i: int|
            0 <= i < pads.len() ==> (pad_changes(component, footprint, #[trigger] pads[i])
                ==> pad_blocked(board, component, footprint, pads[i]))),
    decreases pads.len(),
{
    if pads.len() > 0 {
        let rest = pads.drop_last();
        lemma_pad_conflicts(board, component, footprint, rest);
        assert forall|i: int| 0 <= i < rest.len() implies rest[i] == #[trigger] pads[i] by {}
        assert(pads[pads.len() - 1] == pads.last());
        if pad_conflicts(board, component, footprint, pads).len() == 0 {
            assert forall|i: int| 0 <= i < pads.len() implies !pad_blocked(
                board,
                component,
                footprint,
                #[trigger] pads[i],
            ) by {
                if i < rest.len() {
                    assert(!pad_blocked(board, component, footprint, rest[i]));
                }
            }
        }
        if pads_reassigned(board, component, footprint, pads) == 0 {
            assert forall|i: int|
                0 <= i < pads.len() && pad_changes(
                    component,
                    footprint,
                    #[trigger] pads[i],
                ) implies pad_blocked(board, component, footprint, pads[i]) by {
                if i < rest.len() {
                    assert(pad_changes(component, footprint, rest[i]) ==> pad_blocked(
                        board,
                        component,
                        footprint,
                        rest[i],
                    ));
                }
            }
        }
        if forall|i: int|
            0 <= i < pads.len() ==> (pad_changes(component, footprint, #[trigger] pads[i])
                ==> pad_blocked(board, component, footprint, pads[i])) {
            assert(pad_changes(component, footprint, pads[pads.len() - 1]) ==> pad_blocked(
                board,
                component,
                footprint,
                pads[pads.len() - 1],
            ));
        }
    }
}

/// The pads of either side are exactly those of its list.
proof fn lemma_pads_listed(component: DesignComponent, footprint: BoardFootprint)
    requires
        component.pad_nets.ordered(),
        footprint.pad_nets.ordered(),
    ensures
        forall|pad: Seq<char>| #[trigger]
            pads_of(component, footprint).contains(pad) <==> (component.pad_nets@.contains_key(pad)
                || footprint.pad_nets@.contains_key(pad)),
{
    let members = component.pad_nets@.dom().union(footprint.pad_nets@.dom());
    crate::text::lemma_can_be_ordered(
        component.pad_nets.keys(),
        footprint.pad_nets.keys(),
        members,
    );
}

/// The maps of the design and the board are in order, as every map that a
/// program builds is.
pub open spec fn valid(design: ExportedDesign, board: BoardState) -> bool {
    &&& forall|i: int|
        0 <= i < design.components@.len() ==> (#[trigger] design.components@[i]).pad_nets.ordered()
    &&& forall|k: int|
        0 <= k < board.footprints@.len() ==> (#[trigger] board.footprints@[k]).pad_nets.ordered()
}

proof fn lemma_clean_parts(design: ExportedDesign, board: BoardState)
    requires
        plan_conflicts(design, board).len() == 0,
    ensures
        unique_on_board(board.footprints@),
        forall|i: int|
            0 <= i < design.skipped@.len() ==> (#[trigger] skipped_conflicts(
                board.footprints@,
                design.skipped@,
                i,
            )).len() == 0,
        forall|i: int|
            0 <= i < design.components@.len() ==> (#[trigger] component_conflicts(
                design,
                board,
                i,
            )).len() == 0,
{
    let a = board_conflicts(board.footprints@);
    let b = all_skipped_conflicts(board.footprints@, design.skipped@, design.skipped@.len());
    let c = all_component_conflicts(design, board, design.components@.len());
    assert(plan_conflicts(design, board).len() == a.len() + b.len() + c.len());
    law_board_conflicts_are_duplicates(board.footprints@);
    lemma_no_skipped_conflicts(board.footprints@, design.skipped@, design.skipped@.len());
    lemma_no_component_conflicts(design, board, design.components@.len());
}

proof fn lemma_pad_outside(component: DesignComponent, footprint: BoardFootprint, pad: Seq<char>)
    requires
        component.pad_nets.ordered(),
        footprint.pad_nets.ordered(),
        pad_changes(component, footprint, pad),
    ensures
        pads_of(component, footprint).contains(pad),
{
    lemma_pads_listed(component, footprint);
}

/// A plan without conflicts moves no pad onto or off a net that routed copper
/// carries.
pub proof fn law_routed_nets_keep_their_pads(
    design: ExportedDesign,
    board: BoardState,
    i: int,
    pad: Seq<char>,
)
    requires
        valid(design, board),
        plan_conflicts(design, board).len() == 0,
        0 <= i < design.components@.len(),
        verdict(design, board, i) is Matched,
    ensures
        ({
            let footprint = board.footprints@[verdict(design, board, i)->Matched_index];
            let component = design.components@[i];
            let (before, after) = (
                net_of(footprint.pad_nets@, pad),
                net_of(component.pad_nets@, pad),
            );
            board.routed_nets@.contains_key(before) || board.routed_nets@.contains_key(after)
                ==> before == after
        }),
{
    lemma_clean_parts(design, board);
    let k = verdict(design, board, i)->Matched_index;
    let component = design.components@[i];
    lemma_found(board.footprints@, component.reference@);
    lemma_found(board.footprints@, component.symbol_path@);
    let footprint = board.footprints@[k];
    let pads = pads_of(component, footprint);
    assert(component_conflicts(design, board, i).len() == 0);
    lemma_pad_conflicts(board, component, footprint, pads);
    if pad_changes(component, footprint, pad) {
        lemma_pad_outside(component, footprint, pad);
        let m = pads.index_of(pad);
        assert(!pad_blocked(board, component, footprint, pads[m]));
    }
}

/// What the board shows of a footprint's pose.
pub open spec fn pose_of(footprint: BoardFootprint) -> PreservedView {
    PreservedView {
        position: footprint.position,
        rotation: footprint.rotation,
        layer: footprint.layer@,
        locked: footprint.locked,
    }
}

/// Every update is of a footprint on the board and keeps its position,
/// rotation, layer and lock.
pub proof fn law_updates_keep_the_pose(
    design: ExportedDesign,
    board: BoardState,
    n: nat,
    c: int,
)
    requires
        n <= design.components@.len(),
        0 <= c < all_changes(design, board, n).len(),
        all_changes(design, board, n)[c] is Update,
    ensures
        exists|k: int|
            0 <= k < board.footprints@.len() && (#[trigger] board.footprints@[k]).kiid@
                == all_changes(design, board, n)[c]->Update_kiid && all_changes(
                design,
                board,
                n,
            )[c]->preserve == pose_of(board.footprints@[k]),
    decreases n,
{
    let rest = all_changes(design, board, (n - 1) as nat);
    if c < rest.len() {
        law_updates_keep_the_pose(design, board, (n - 1) as nat, c);
        assert(all_changes(design, board, n)[c] == rest[c]);
    } else {
        let component = design.components@[n - 1];
        lemma_found(board.footprints@, component.reference@);
        lemma_found(board.footprints@, component.symbol_path@);
        let k = verdict(design, board, n - 1)->Matched_index;
        assert(board.footprints@[k].kiid@ == all_changes(design, board, n)[c]->Update_kiid);
    }
}

/// The footprint holds all that the schematic says of the component.
pub open spec fn carries(footprint: BoardFootprint, component: DesignComponent) -> bool {
    &&& footprint.reference@ == component.reference@
    &&& footprint.value@ == component.value@
    &&& footprint.footprint_id@ == component.footprint_id@
    &&& has_path(footprint, component.symbol_path@)
    &&& footprint.dnp == component.dnp
    &&& forall|pad: Seq<char>| #[trigger]
        net_of(footprint.pad_nets@, pad) == net_of(component.pad_nets@, pad)
}

/// The board after a plan was applied: each addition stands behind the old
/// footprints, each updated footprint holds what its component says, and the
/// names of the others are as they were.
pub open spec fn applied(design: ExportedDesign, board: BoardState, after: BoardState) -> bool {
    let count = board.footprints@.len();
    let n = design.components@.len();
    &&& after.footprints@.len() == count + additions(design, board, n)
    &&& forall|i: int|
        0 <= i < n ==> match #[trigger] verdict(design, board, i) {
            Verdict::New => carries(
                after.footprints@[(count + additions(design, board, i as nat)) as int],
                design.components@[i],
            ),
            Verdict::Matched { index } => if needs_update(
                board,
                design.components@[i],
                board.footprints@[index],
            ) {
                carries(after.footprints@[index], design.components@[i])
            } else {
                after.footprints@[index] == board.footprints@[index]
            },
            _ => true,
        }
    &&& forall|k: int|
        0 <= k < count && !claimed(design, board, n as int, k) ==> {
            &&& (#[trigger] after.footprints@[k]).reference@ == board.footprints@[k].reference@
            &&& opt_text(after.footprints@[k].symbol_path) == opt_text(
                board.footprints@[k].symbol_path,
            )
        }
}

/// Where component `i` stands on the board after the plan was applied.
spec fn slot(design: ExportedDesign, board: BoardState, i: int) -> int {
    match verdict(design, board, i) {
        Verdict::Matched { index } => index,
        _ => (board.footprints@.len() + additions(design, board, i as nat)) as int,
    }
}

proof fn lemma_clean_verdict(design: ExportedDesign, board: BoardState, i: int)
    requires
        valid(design, board),
        plan_conflicts(design, board).len() == 0,
        0 <= i < design.components@.len(),
    ensures
        verdict(design, board, i) is New || verdict(design, board, i) is Matched,
        accepted(component_ids(design.components@), i),
        verdict(design, board, i) matches Verdict::Matched { index } ==> 0 <= index
            < board.footprints@.len() && component_index(
            board.footprints@,
            design.components@[i],
        ) == Some(index),
        verdict(design, board, i) is New ==> component_index(
            board.footprints@,
            design.components@[i],
        ) is None && at_reference(board.footprints@, design.components@[i].reference@) is None
            && at_path(board.footprints@, design.components@[i].symbol_path@) is None,
        verdict(design, board, i) matches Verdict::Matched { index } ==> (!needs_update(
            board,
            design.components@[i],
            board.footprints@[index],
        ) ==> carries(board.footprints@[index], design.components@[i])),
{
    lemma_clean_parts(design, board);
    assert(component_conflicts(design, board, i).len() == 0);
    let component = design.components@[i];
    lemma_found(board.footprints@, component.reference@);
    lemma_found(board.footprints@, component.symbol_path@);
    if verdict(design, board, i) is Matched {
        let k = verdict(design, board, i)->Matched_index;
        let footprint = board.footprints@[k];
        let pads = pads_of(component, footprint);
        lemma_pad_conflicts(board, component, footprint, pads);
        if !needs_update(board, component, footprint) {
            assert forall|pad: Seq<char>| #[trigger]
                net_of(footprint.pad_nets@, pad) == net_of(component.pad_nets@, pad) by {
                if pad_changes(component, footprint, pad) {
                    lemma_pad_outside(component, footprint, pad);
                    let m = pads.index_of(pad);
                    assert(!pad_blocked(board, component, footprint, pads[m]));
                }
            }
        }
    }
}

proof fn lemma_carried(design: ExportedDesign, board: BoardState, after: BoardState, i: int)
    requires
        valid(design, board),
        plan_conflicts(design, board).len() == 0,
        applied(design, board, after),
        0 <= i < design.components@.len(),
    ensures
        0 <= slot(design, board, i) < after.footprints@.len(),
        carries(after.footprints@[slot(design, board, i)], design.components@[i]),
{
    lemma_clean_verdict(design, board, i);
    lemma_additions_grow(design, board, i as nat, design.components@.len());
}

proof fn lemma_additions_grow(design: ExportedDesign, board: BoardState, i: nat, n: nat)
    requires
        i <= n,
    ensures
        additions(design, board, i) <= additions(design, board, n),
        i < n && verdict(design, board, i as int) is New ==> additions(design, board, i)
            < additions(design, board, n),
    decreases n,
{
    if i < n {
        lemma_additions_grow(design, board, i, (n - 1) as nat);
    }
}

/// Each addition has its component.
proof fn lemma_addition_owner(design: ExportedDesign, board: BoardState, n: nat, m: nat) -> (i: int)
    requires
        m < additions(design, board, n),
    ensures
        0 <= i < n,
        verdict(design, board, i) is New,
        additions(design, board, i as nat) == m,
    decreases n,
{
    if m == additions(design, board, (n - 1) as nat) {
        n - 1
    } else {
        lemma_addition_owner(design, board, (n - 1) as nat, m)
    }
}

/// Whose footprint stands at a place of the board after the plan was applied:
/// that of a component, or nobody's.
proof fn lemma_owner(
    design: ExportedDesign,
    board: BoardState,
    after: BoardState,
    k: int,
) -> (owner: Option<int>)
    requires
        valid(design, board),
        plan_conflicts(design, board).len() == 0,
        applied(design, board, after),
        0 <= k < after.footprints@.len(),
    ensures
        match owner {
            Some(i) => 0 <= i < design.components@.len() && slot(design, board, i) == k,
            None => k < board.footprints@.len() && !claimed(
                design,
                board,
                design.components@.len() as int,
                k,
            ),
        },
{
    let n = design.components@.len();
    let count = board.footprints@.len();
    lemma_clean_parts(design, board);
    if k >= count {
        Some(lemma_addition_owner(design, board, n, (k - count) as nat))
    } else if claimed(design, board, n as int, k) {
        if claimed_by_skipped(board.footprints@, design.skipped@, design.skipped@.len() as int, k) {
            let j = choose|j: int|
                0 <= j < design.skipped@.len() && accepted(skipped_ids(design.skipped@), j)
                    && skipped_index(board.footprints@, #[trigger] design.skipped@[j]) == Some(k);
            assert(skipped_conflicts(board.footprints@, design.skipped@, j).len() == 0);
        }
        let j = choose|j: int|
            0 <= j < n && accepted(component_ids(design.components@), j) && component_index(
                board.footprints@,
                #[trigger] design.components@[j],
            ) == Some(k);
        lemma_clean_verdict(design, board, j);
        Some(j)
    } else {
        None
    }
}

/// Two components stand at different places.
proof fn lemma_slots_differ(design: ExportedDesign, board: BoardState, i: int, j: int)
    requires
        valid(design, board),
        plan_conflicts(design, board).len() == 0,
        0 <= i < j < design.components@.len(),
    ensures
        slot(design, board, i) != slot(design, board, j),
        design.components@[i].reference@ != design.components@[j].reference@,
        design.components@[i].symbol_path@ != design.components@[j].symbol_path@,
{
    lemma_clean_verdict(design, board, i);
    lemma_clean_verdict(design, board, j);
    lemma_distinct_ids(design, i, j);
    lemma_additions_grow(design, board, i as nat, j as nat);
    if slot(design, board, i) == slot(design, board, j) && verdict(design, board, i) is Matched
        && verdict(design, board, j) is Matched {
        law_one_component_per_footprint(design, board, i, j, slot(design, board, i));
    }
}

/// A footprint of nobody and one of a component share neither reference nor
/// identity.
proof fn lemma_stranger_differs(
    design: ExportedDesign,
    board: BoardState,
    k: int,
    i: int,
)
    requires
        valid(design, board),
        plan_conflicts(design, board).len() == 0,
        0 <= k < board.footprints@.len(),
        !claimed(design, board, design.components@.len() as int, k),
        0 <= i < design.components@.len(),
    ensures
        board.footprints@[k].reference@ != design.components@[i].reference@,
        !has_path(board.footprints@[k], design.components@[i].symbol_path@),
{
    let footprints = board.footprints@;
    let component = design.components@[i];
    lemma_clean_parts(design, board);
    lemma_clean_verdict(design, board, i);
    lemma_finds(footprints, component.reference@, k);
    lemma_finds(footprints, component.symbol_path@, k);
    lemma_found(footprints, component.reference@);
    lemma_found(footprints, component.symbol_path@);
    if component_index(footprints, component) == Some(k) {
        assert(claimed_by_component(
            footprints,
            design.components@,
            design.components@.len() as int,
            k,
        ));
    }
    if has_path(footprints[k], component.symbol_path@) {
        let found = at_path(footprints, component.symbol_path@)->0;
        if found < k {
            assert(!has_path(footprints[k], footprints[found].symbol_path->0@));
        } else if k < found {
            assert(!has_path(footprints[found], footprints[k].symbol_path->0@));
        }
    }
    if footprints[k].reference@ == component.reference@ {
        let found = at_reference(footprints, component.reference@)->0;
        if found < k {
            assert(footprints[found].reference@ != footprints[k].reference@);
        } else if k < found {
            assert(footprints[k].reference@ != footprints[found].reference@);
        }
        let index = verdict(design, board, i)->Matched_index;
        assert(verdict(design, board, i) is Matched);
        if index < k {
            assert(footprints[index].reference@ != footprints[k].reference@);
        } else if k < index {
            assert(footprints[k].reference@ != footprints[index].reference@);
        }
    }
}

proof fn lemma_unique_after(design: ExportedDesign, board: BoardState, after: BoardState)
    requires
        valid(design, board),
        plan_conflicts(design, board).len() == 0,
        applied(design, board, after),
    ensures
        unique_on_board(after.footprints@),
{
    let footprints = after.footprints@;
    lemma_clean_parts(design, board);
    assert forall|j: int, k: int| 0 <= j < k < footprints.len() implies {
        &&& (#[trigger] footprints[j]).reference@ != (#[trigger] footprints[k]).reference@
        &&& footprints[j].symbol_path is Some ==> !has_path(
            footprints[k],
            footprints[j].symbol_path->0@,
        )
    } by {
        let a = lemma_owner(design, board, after, j);
        let b = lemma_owner(design, board, after, k);
        match (a, b) {
            (Some(x), Some(y)) => {
                lemma_carried(design, board, after, x);
                lemma_carried(design, board, after, y);
                if x < y {
                    lemma_slots_differ(design, board, x, y);
                } else if y < x {
                    lemma_slots_differ(design, board, y, x);
                }
            },
            (Some(x), None) => {
                lemma_carried(design, board, after, x);
                lemma_stranger_differs(design, board, k, x);
            },
            (None, Some(y)) => {
                lemma_carried(design, board, after, y);
                lemma_stranger_differs(design, board, j, y);
            },
            (None, None) => {
                assert(board.footprints@[j].reference@ != board.footprints@[k].reference@);
            },
        }
    }
}

/// Once a plan has been applied, planning again finds nothing to do.
///
/// A skipped symbol that shares its reference or identity with a component is
/// left out: applying the plan puts that component on the board, where the
/// symbol then conflicts with it.
pub proof fn law_an_applied_plan_is_a_noop(
    design: ExportedDesign,
    board: BoardState,
    after: BoardState,
)
    requires
        valid(design, board),
        valid(design, after),
        plan_conflicts(design, board).len() == 0,
        applied(design, board, after),
        forall|s: int, i: int|
            0 <= s < design.skipped@.len() && 0 <= i < design.components@.len() ==> {
                &&& (#[trigger] design.skipped@[s]).reference@
                    != (#[trigger] design.components@[i]).reference@
                &&& design.skipped@[s].symbol_path@ != design.components@[i].symbol_path@
            },
    ensures
        plan_conflicts(design, after).len() == 0,
        plan_status(design, after) == PlanStatus::Noop,
{
    let n = design.components@.len();
    lemma_clean_parts(design, board);
    lemma_unique_after(design, board, after);
    law_board_conflicts_are_duplicates(after.footprints@);
    assert forall|s: int| 0 <= s < design.skipped@.len() implies (#[trigger] skipped_conflicts(
        after.footprints@,
        design.skipped@,
        s,
    )).len() == 0 by {
        lemma_skipped_stays_off(design, board, after, s);
    }
    lemma_no_skipped_conflicts(after.footprints@, design.skipped@, design.skipped@.len());
    assert forall|i: int| 0 <= i < n implies (#[trigger] component_conflicts(
        design,
        after,
        i,
    )).len() == 0 && component_change(design, after, i) is None by {
        lemma_component_settled(design, board, after, i);
    }
    lemma_no_component_conflicts(design, after, n);
    lemma_no_changes(design, after, n);
}

proof fn lemma_no_changes(design: ExportedDesign, board: BoardState, n: nat)
    requires
        forall|i: int| 0 <= i < n ==> component_conflicts(design, board, i).len() == 0
            && #[trigger] component_change(design, board, i) is None,
    ensures
        all_changes(design, board, n).len() == 0,
    decreases n,
{
    if n > 0 {
        assert(component_change(design, board, n - 1) is None);
        lemma_no_changes(design, board, (n - 1) as nat);
    }
}

proof fn lemma_skipped_stays_off(
    design: ExportedDesign,
    board: BoardState,
    after: BoardState,
    s: int,
)
    requires
        valid(design, board),
        plan_conflicts(design, board).len() == 0,
        applied(design, board, after),
        0 <= s < design.skipped@.len(),
        forall|i: int|
            0 <= i < design.components@.len() ==> {
                &&& design.skipped@[s].reference@
                    != (#[trigger] design.components@[i]).reference@
                &&& design.skipped@[s].symbol_path@ != design.components@[i].symbol_path@
            },
    ensures
        skipped_conflicts(after.footprints@, design.skipped@, s).len() == 0,
{
    lemma_clean_parts(design, board);
    assert(skipped_conflicts(board.footprints@, design.skipped@, s).len() == 0);
    let entry = design.skipped@[s];
    lemma_found(after.footprints@, entry.reference@);
    lemma_found(after.footprints@, entry.symbol_path@);
    if at_path(after.footprints@, entry.symbol_path@) is Some {
        let k = at_path(after.footprints@, entry.symbol_path@)->0;
        let owner = lemma_owner(design, board, after, k);
        match owner {
            Some(i) => {
                lemma_carried(design, board, after, i);
            },
            None => {
                lemma_finds(board.footprints@, entry.symbol_path@, k);
            },
        }
    }
    if at_reference(after.footprints@, entry.reference@) is Some {
        let k = at_reference(after.footprints@, entry.reference@)->0;
        let owner = lemma_owner(design, board, after, k);
        match owner {
            Some(i) => {
                lemma_carried(design, board, after, i);
            },
            None => {
                lemma_finds(board.footprints@, entry.reference@, k);
            },
        }
    }
}

proof fn lemma_component_settled(
    design: ExportedDesign,
    board: BoardState,
    after: BoardState,
    i: int,
)
    requires
        valid(design, board),
        valid(design, after),
        plan_conflicts(design, board).len() == 0,
        applied(design, board, after),
        unique_on_board(after.footprints@),
        0 <= i < design.components@.len(),
    ensures
        component_conflicts(design, after, i).len() == 0,
        component_change(design, after, i) is None,
{
    let component = design.components@[i];
    let k = slot(design, board, i);
    lemma_clean_verdict(design, board, i);
    lemma_carried(design, board, after, i);
    lemma_finds(after.footprints@, component.symbol_path@, k);
    lemma_found(after.footprints@, component.symbol_path@);
    let found = at_path(after.footprints@, component.symbol_path@)->0;
    if found < k {
        assert(!has_path(after.footprints@[k], after.footprints@[found].symbol_path->0@));
    } else if k < found {
        assert(!has_path(after.footprints@[found], after.footprints@[k].symbol_path->0@));
    }
    let footprint = after.footprints@[k];
    assert(verdict(design, after, i) == Verdict::Matched { index: k });
    lemma_pad_conflicts(after, component, footprint, pads_of(component, footprint));
    assert forall|pad: Seq<char>| !pad_changes(component, footprint, pad) by {
        assert(net_of(footprint.pad_nets@, pad) == net_of(component.pad_nets@, pad));
    }
}

} // verus!
