//! What a plan decides about every component, told from the fields of the
//! design and of the board.

use crate::lists::positions_where;
use crate::planner::{plan_counts, plan_status};
use crate::sync_laws::valid;
use crate::sync_plan::{
    about, accepted, additions, all_changes, all_component_conflicts, all_skipped_conflicts,
    at_path, at_reference, board_conflicts, board_only, claimed, claimed_by_component,
    claimed_by_skipped, clamped, component_change, component_conflicts, component_ids,
    component_index, footprint_conflicts, has_path, may_be_renamed, needs_update, net_of,
    pad_blocked, pad_changes, pad_conflicts, pads_of, pads_reassigned, path_repeated,
    plan_conflicts, reassignments, reference_repeated, rename_candidates, skipped_conflicts,
    skipped_count, skipped_ids, skipped_index, updates, verdict, Identity, STAGING_STEP, Verdict,
};
use crate::sync_types::{
    BoardFootprint, BoardState, ChangeView, DesignComponent, DiagnosticView, ExportedDesign,
    PlanStatus, Point, PreservedView, SkippedComponent,
};
use crate::text::joined;
use vstd::prelude::*;
use vstd::string::*;

verus! {

/// No entry before this one has the same reference.
pub open spec fn has_own_reference(references: Seq<Seq<char>>, i: int) -> bool {
    forall|j: int| 0 <= j < i ==> #[trigger] references[j] != references[i]
}

/// The entry has a reference of its own, and no entry before it with a
/// reference of its own has the same identity.
pub open spec fn is_first(references: Seq<Seq<char>>, paths: Seq<Seq<char>>, i: int) -> bool {
    &&& has_own_reference(references, i)
    &&& forall|j: int|
        0 <= j < i && has_own_reference(references, j) ==> #[trigger] paths[j] != paths[i]
}

/// The references of the components.
pub open spec fn references(components: Seq<DesignComponent>) -> Seq<Seq<char>> {
    Seq::new(components.len(), |i: int| components[i].reference@)
}

/// The identities of the components.
pub open spec fn paths(components: Seq<DesignComponent>) -> Seq<Seq<char>> {
    Seq::new(components.len(), |i: int| components[i].symbol_path@)
}

/// The references of the skipped symbols.
pub open spec fn skipped_references(skipped: Seq<SkippedComponent>) -> Seq<Seq<char>> {
    Seq::new(skipped.len(), |i: int| skipped[i].reference@)
}

/// The identities of the skipped symbols.
pub open spec fn skipped_paths(skipped: Seq<SkippedComponent>) -> Seq<Seq<char>> {
    Seq::new(skipped.len(), |i: int| skipped[i].symbol_path@)
}

/// Component `i` is the first of its reference and its identity.
pub open spec fn counts(design: ExportedDesign, i: int) -> bool {
    is_first(references(design.components@), paths(design.components@), i)
}

/// Skipped symbol `s` is the first of its reference and its identity.
pub open spec fn counts_as_skipped(design: ExportedDesign, s: int) -> bool {
    is_first(skipped_references(design.skipped@), skipped_paths(design.skipped@), s)
}

/// The footprint carries this identity.
pub open spec fn carries_path(footprint: BoardFootprint, path: Seq<char>) -> bool {
    footprint.symbol_path matches Some(own) && own@ == path
}

/// Footprint `k` is the last that carries this identity.
pub open spec fn is_last_with_path(
    footprints: Seq<BoardFootprint>,
    path: Seq<char>,
    k: int,
) -> bool {
    &&& 0 <= k < footprints.len()
    &&& carries_path(footprints[k], path)
    &&& forall|m: int| k < m < footprints.len() ==> !carries_path(#[trigger] footprints[m], path)
}

/// No footprint carries this identity.
pub open spec fn no_path(footprints: Seq<BoardFootprint>, path: Seq<char>) -> bool {
    forall|k: int| 0 <= k < footprints.len() ==> !carries_path(#[trigger] footprints[k], path)
}

/// Footprint `k` is the last with this reference.
pub open spec fn is_last_named(
    footprints: Seq<BoardFootprint>,
    reference: Seq<char>,
    k: int,
) -> bool {
    &&& 0 <= k < footprints.len()
    &&& footprints[k].reference@ == reference
    &&& forall|m: int|
        k < m < footprints.len() ==> (#[trigger] footprints[m]).reference@ != reference
}

/// No footprint has this reference.
pub open spec fn no_name(footprints: Seq<BoardFootprint>, reference: Seq<char>) -> bool {
    forall|k: int|
        0 <= k < footprints.len() ==> (#[trigger] footprints[k]).reference@ != reference
}

/// Footprint `k` is that of a component: it carries its identity, or no
/// footprint does and it has its reference and no identity yet.
pub open spec fn is_home(
    footprints: Seq<BoardFootprint>,
    component: DesignComponent,
    k: int,
) -> bool {
    ||| is_last_with_path(footprints, component.symbol_path@, k)
    ||| no_path(footprints, component.symbol_path@) && is_last_named(
        footprints,
        component.reference@,
        k,
    ) && footprints[k].symbol_path is None
}

/// Footprint `k` is that of a skipped symbol: it carries its identity, or no
/// footprint does and it has its reference.
pub open spec fn is_skipped_home(
    footprints: Seq<BoardFootprint>,
    skipped: SkippedComponent,
    k: int,
) -> bool {
    ||| is_last_with_path(footprints, skipped.symbol_path@, k)
    ||| no_path(footprints, skipped.symbol_path@) && is_last_named(
        footprints,
        skipped.reference@,
        k,
    )
}

/// Footprint `k` is that of a skipped symbol or of one of the first `n`
/// components.
pub open spec fn is_taken(design: ExportedDesign, board: BoardState, n: int, k: int) -> bool {
    ||| exists|s: int|
        0 <= s < design.skipped@.len() && counts_as_skipped(design, s) && is_skipped_home(
            board.footprints@,
            #[trigger] design.skipped@[s],
            k,
        )
    ||| exists|j: int|
        0 <= j < n && counts(design, j) && is_home(
            board.footprints@,
            #[trigger] design.components@[j],
            k,
        )
}

/// Footprint `k` could be component `i` under another name: nobody has it, it
/// carries no identity, the board does not mark it as its own, and it has the
/// footprint and the value of the component.
pub open spec fn resembles(design: ExportedDesign, board: BoardState, i: int, k: int) -> bool {
    let footprint = board.footprints@[k];
    &&& !is_taken(design, board, i, k)
    &&& footprint.symbol_path is None
    &&& !footprint.not_in_schematic
    &&& footprint.footprint_id@ == design.components@[i].footprint_id@
    &&& footprint.value@ == design.components@[i].value@
}

/// The footprints that could be component `i` under another name.
pub open spec fn lookalikes(design: ExportedDesign, board: BoardState, i: int) -> Seq<int> {
    positions_where(|k: int| resembles(design, board, i, k), board.footprints@.len())
}

/// Nothing on the board is, or could be, component `i`.
pub open spec fn is_new(design: ExportedDesign, board: BoardState, i: int) -> bool {
    &&& counts(design, i)
    &&& no_path(board.footprints@, design.components@[i].symbol_path@)
    &&& no_name(board.footprints@, design.components@[i].reference@)
    &&& forall|k: int| 0 <= k < board.footprints@.len() ==> !#[trigger] resembles(
        design,
        board,
        i,
        k,
    )
}

/// Component `i` is to take the reference of its footprint `k` away from
/// another footprint.
pub open spec fn collides(design: ExportedDesign, board: BoardState, i: int, k: int) -> bool {
    let component = design.components@[i];
    board.footprints@[k].reference@ != component.reference@ && !no_name(
        board.footprints@,
        component.reference@,
    )
}

/// Component `i` goes to footprint `k`.
pub open spec fn goes_to(design: ExportedDesign, board: BoardState, i: int, k: int) -> bool {
    &&& counts(design, i)
    &&& is_home(board.footprints@, design.components@[i], k)
    &&& !collides(design, board, i, k)
    &&& board.footprints@[k].footprint_id@ == design.components@[i].footprint_id@
}

/// The name of the net of a pad; without one it is empty.
pub open spec fn net_name(nets: Map<Seq<char>, String>, pad: Seq<char>) -> Seq<char> {
    if nets.contains_key(pad) {
        nets[pad]@
    } else {
        Seq::empty()
    }
}

/// The net of the pad is another in the design than on the board.
pub open spec fn pad_differs(
    component: DesignComponent,
    footprint: BoardFootprint,
    pad: Seq<char>,
) -> bool {
    net_name(component.pad_nets@, pad) != net_name(footprint.pad_nets@, pad)
}

/// Routed copper carries the net that the pad has or that it is to have.
pub open spec fn pad_is_routed(
    board: BoardState,
    component: DesignComponent,
    footprint: BoardFootprint,
    pad: Seq<char>,
) -> bool {
    board.routed_nets@.contains_key(net_name(footprint.pad_nets@, pad))
        || board.routed_nets@.contains_key(net_name(component.pad_nets@, pad))
}

/// A diagnostic about a reference.
pub open spec fn told(
    d: DiagnosticView,
    code: Seq<char>,
    message: Seq<char>,
    reference: Seq<char>,
) -> bool {
    d.code == code && d.message == message && d.reference == Some(reference)
}

/// The diagnostic is about two footprints with one reference or one identity.
pub open spec fn is_due_to_board(footprints: Seq<BoardFootprint>, d: DiagnosticView) -> bool {
    exists|j: int, k: int|
        0 <= j < k < footprints.len() && is_due_to_pair(
            #[trigger] footprints[j],
            #[trigger] footprints[k],
            d,
        )
}

/// The later footprint has the reference or the identity of the earlier, and
/// the diagnostic says so.
pub open spec fn is_due_to_pair(
    earlier: BoardFootprint,
    later: BoardFootprint,
    d: DiagnosticView,
) -> bool {
    ||| earlier.reference@ == later.reference@ && told(
        d,
        "duplicate_board_reference"@,
        "board contains duplicate reference "@ + later.reference@,
        later.reference@,
    )
    ||| later.symbol_path is Some && carries_path(earlier, later.symbol_path->0@) && told(
        d,
        "duplicate_board_identity"@,
        "board contains duplicate schematic identity "@ + later.symbol_path->0@,
        later.reference@,
    )
}

/// The diagnostic is about skipped symbol `s`: it repeats another, or it is on
/// the board.
pub open spec fn is_due_to_skipped(
    design: ExportedDesign,
    board: BoardState,
    s: int,
    d: DiagnosticView,
) -> bool {
    let reference = design.skipped@[s].reference@;
    ||| !counts_as_skipped(design, s) && told(
        d,
        "duplicate_skipped_identity"@,
        "on_board=no instance "@ + reference + " has a duplicate reference or identity"@,
        reference,
    )
    ||| counts_as_skipped(design, s) && !(no_path(
        board.footprints@,
        design.skipped@[s].symbol_path@,
    ) && no_name(board.footprints@, reference)) && told(
        d,
        "on_board_exclusion_conflict"@,
        reference + " is marked on_board=no but already exists on the board"@,
        reference,
    )
}

/// The diagnostic is about component `i`: it repeats another, its reference is
/// that of something else, it could be something else, or its footprint cannot
/// be updated.
pub open spec fn is_due_to_component(
    design: ExportedDesign,
    board: BoardState,
    i: int,
    d: DiagnosticView,
) -> bool {
    let component = design.components@[i];
    let footprints = board.footprints@;
    let reference = component.reference@;
    let own = has_own_reference(references(design.components@), i);
    ||| !own && told(
        d,
        "duplicate_schematic_reference"@,
        "schematic export contains duplicate reference "@ + reference,
        reference,
    )
    ||| own && !counts(design, i) && told(
        d,
        "duplicate_schematic_identity"@,
        "schematic export contains duplicate identity "@ + component.symbol_path@,
        reference,
    )
    ||| counts(design, i) && no_path(footprints, component.symbol_path@) && (exists|k: int|
        #[trigger] is_last_named(footprints, reference, k) && footprints[k].symbol_path is Some)
        && told(
        d,
        "reference_identity_conflict"@,
        "reference "@ + reference + " belongs to a different schematic identity on the board"@,
        reference,
    )
    ||| counts(design, i) && no_path(footprints, component.symbol_path@) && no_name(
        footprints,
        reference,
    ) && (exists|k: int|
        0 <= k < footprints.len() && #[trigger] resembles(design, board, i, k)) && told(
        d,
        "reference_only_rename_ambiguous"@,
        reference + " has no stable board identity and could be a rename of "@ + joined(
            lookalikes(design, board, i).map_values(|k: int| footprints[k].reference@),
            ", "@,
        ) + "; link or resolve the identity in KiCad"@,
        reference,
    )
    ||| counts(design, i) && exists|k: int| #[trigger]
        is_home(footprints, component, k) && is_due_at_home(design, board, i, k, d)
}

/// The diagnostic is about component `i` and its footprint `k`.
pub open spec fn is_due_at_home(
    design: ExportedDesign,
    board: BoardState,
    i: int,
    k: int,
    d: DiagnosticView,
) -> bool {
    let component = design.components@[i];
    let footprint = board.footprints@[k];
    let reference = component.reference@;
    ||| collides(design, board, i, k) && exists|m: int| #[trigger]
        is_last_named(board.footprints@, reference, m) && told(
            d,
            "reference_rename_collision"@,
            "cannot rename "@ + footprint.reference@ + " to "@ + reference
                + " because that reference belongs to board footprint "@
                + board.footprints@[m].kiid@,
            reference,
        )
    ||| !collides(design, board, i, k) && footprint.footprint_id@ != component.footprint_id@
        && told(
        d,
        "footprint_id_changed"@,
        reference + " uses "@ + footprint.footprint_id@ + " on the board but "@
            + component.footprint_id@ + " in the schematic"@,
        reference,
    )
    ||| goes_to(design, board, i, k) && exists|pad: Seq<char>| #[trigger]
        pad_differs(component, footprint, pad) && pad_is_routed(board, component, footprint, pad)
            && told(
            d,
            "routed_pad_net_change"@,
            reference + " pad "@ + pad + " would change from '"@ + net_name(
                footprint.pad_nets@,
                pad,
            ) + "' to '"@ + net_name(component.pad_nets@, pad)
                + "' while routed copper uses that net"@,
            reference,
        )
}

/// The diagnostic is due.
pub open spec fn is_due(design: ExportedDesign, board: BoardState, d: DiagnosticView) -> bool {
    ||| is_due_to_board(board.footprints@, d)
    ||| exists|s: int|
        0 <= s < design.skipped@.len() && #[trigger] is_due_to_skipped(design, board, s, d)
    ||| exists|i: int|
        0 <= i < design.components@.len() && #[trigger] is_due_to_component(design, board, i, d)
}

/// A plan reports exactly what is due, and nothing else.
pub proof fn law_a_plan_reports_what_is_due(
    design: ExportedDesign,
    board: BoardState,
    d: DiagnosticView,
)
    requires
        valid(design, board),
    ensures
        plan_conflicts(design, board).contains(d) <==> is_due(design, board, d),
{
    let a = board_conflicts(board.footprints@);
    let b = all_skipped_conflicts(board.footprints@, design.skipped@, design.skipped@.len());
    let c = all_component_conflicts(design, board, design.components@.len());
    lemma_contains_sum(a, b, d);
    lemma_contains_sum(a + b, c, d);
    lemma_board_due(board.footprints@, d);
    lemma_skipped_due(design, board, design.skipped@.len(), d);
    lemma_components_due(design, board, design.components@.len(), d);
}

/// A component that no footprint carries by identity and none by reference is
/// added exactly if no footprint could be it under another name; if any could,
/// the plan reports that about it.
pub proof fn law_one_lookalike_is_enough(design: ExportedDesign, board: BoardState, i: int)
    requires
        valid(design, board),
        0 <= i < design.components@.len(),
        counts(design, i),
        no_path(board.footprints@, design.components@[i].symbol_path@),
        no_name(board.footprints@, design.components@[i].reference@),
    ensures
        (component_change(design, board, i) is Some) <==> forall|k: int|
            0 <= k < board.footprints@.len() ==> !#[trigger] resembles(design, board, i, k),
        component_change(design, board, i) matches Some(change) ==> change is Add,
        (exists|k: int|
            0 <= k < board.footprints@.len() && #[trigger] resembles(design, board, i, k)) ==> (
        exists|d: DiagnosticView| #[trigger]
            plan_conflicts(design, board).contains(d) && d.code
                == "reference_only_rename_ambiguous"@ && d.reference == Some(
                design.components@[i].reference@,
            )),
{
    lemma_verdict(design, board, i);
    if exists|k: int|
        0 <= k < board.footprints@.len() && #[trigger] resembles(design, board, i, k) {
        let component = design.components@[i];
        let footprints = board.footprints@;
        let d = DiagnosticView {
            code: "reference_only_rename_ambiguous"@,
            message: component.reference@
                + " has no stable board identity and could be a rename of "@ + joined(
                lookalikes(design, board, i).map_values(|k: int| footprints[k].reference@),
                ", "@,
            ) + "; link or resolve the identity in KiCad"@,
            reference: Some(component.reference@),
        };
        assert(is_due_to_component(design, board, i, d));
        law_a_plan_reports_what_is_due(design, board, d);
    }
}

/// The footprint differs from the component in something that can be updated.
pub open spec fn has_news(design: ExportedDesign, board: BoardState, i: int, k: int) -> bool {
    let component = design.components@[i];
    let footprint = board.footprints@[k];
    ||| footprint.reference@ != component.reference@
    ||| footprint.value@ != component.value@
    ||| !carries_path(footprint, component.symbol_path@)
    ||| footprint.dnp != component.dnp
    ||| exists|pad: Seq<char>| #[trigger]
        pad_differs(component, footprint, pad) && !pad_is_routed(board, component, footprint, pad)
}

/// The footprint that component `i` goes to.
pub open spec fn home_of(design: ExportedDesign, board: BoardState, i: int) -> int {
    choose|k: int| #[trigger] goes_to(design, board, i, k)
}

/// Component `i` updates its footprint.
pub open spec fn is_updated(design: ExportedDesign, board: BoardState, i: int) -> bool {
    exists|k: int| #[trigger] goes_to(design, board, i, k) && has_news(design, board, i, k)
}

/// How many of the components before this one are new.
pub open spec fn new_before(design: ExportedDesign, board: BoardState, i: int) -> nat {
    positions_where(|j: int| is_new(design, board, j), i as nat).len()
}

/// The change for component `i`: a new footprint ten millimetres beside the
/// board, below those of the new components before it, or an update of its own
/// footprint that keeps its pose.
pub open spec fn change_for(design: ExportedDesign, board: BoardState, i: int) -> ChangeView {
    let component = design.components@[i];
    if is_new(design, board, i) {
        ChangeView::Add {
            reference: component.reference@,
            value: component.value@,
            footprint_id: component.footprint_id@,
            symbol_path: component.symbol_path@,
            dnp: component.dnp,
            pad_nets: component.pad_nets@,
            position: Point {
                x: nearest(board.bounds.max_x + 10_000_000),
                y: nearest(board.bounds.min_y + new_before(design, board, i) * 10_000_000),
            },
        }
    } else {
        let footprint = board.footprints@[home_of(design, board, i)];
        ChangeView::Update {
            kiid: footprint.kiid@,
            reference: component.reference@,
            value: component.value@,
            symbol_path: component.symbol_path@,
            dnp: component.dnp,
            pad_nets: component.pad_nets@,
            preserve: PreservedView {
                position: footprint.position,
                rotation: footprint.rotation,
                layer: footprint.layer@,
                locked: footprint.locked,
            },
        }
    }
}

/// The nearest number that fits 64 bits.
pub open spec fn nearest(value: int) -> i64 {
    if value < -0x8000_0000_0000_0000 {
        -0x8000_0000_0000_0000i64
    } else if value > 0x7fff_ffff_ffff_ffff {
        0x7fff_ffff_ffff_ffffi64
    } else {
        value as i64
    }
}

/// A plan changes exactly the components that are new or have news, in the order
/// of the design, and each to what the design says of it.
pub proof fn law_a_plan_changes_what_differs(design: ExportedDesign, board: BoardState)
    requires
        valid(design, board),
    ensures
        all_changes(design, board, design.components@.len()) == positions_where(
            |i: int| is_new(design, board, i) || is_updated(design, board, i),
            design.components@.len(),
        ).map_values(|i: int| change_for(design, board, i)),
{
    lemma_changes(design, board, design.components@.len());
}

/// A plan is in conflict if anything is reported, has nothing to do if nothing
/// is new or has news, and is ready otherwise.
pub proof fn law_a_plan_is_ready_when_something_differs(design: ExportedDesign, board: BoardState)
    requires
        valid(design, board),
    ensures
        plan_status(design, board) == PlanStatus::Conflict <==> exists|d: DiagnosticView| #[trigger]
            is_due(design, board, d),
        plan_status(design, board) == PlanStatus::Ready <==> !(exists|d: DiagnosticView| #[trigger]
            is_due(design, board, d)) && exists|i: int|
            0 <= i < design.components@.len() && (#[trigger] is_new(design, board, i)
                || is_updated(design, board, i)),
{
    let all = plan_conflicts(design, board);
    if all.len() > 0 {
        law_a_plan_reports_what_is_due(design, board, all[0]);
        assert(all.contains(all[0]));
    }
    assert forall|d: DiagnosticView| #[trigger] is_due(design, board, d) implies all.contains(
        d,
    ) by {
        law_a_plan_reports_what_is_due(design, board, d);
    }
    law_a_plan_changes_what_differs(design, board);
    let n = design.components@.len();
    let wanted = |i: int| is_new(design, board, i) || is_updated(design, board, i);
    let at = positions_where(wanted, n);
    crate::lists::lemma_positions(wanted, n);
    assert(all_changes(design, board, n).len() == at.len());
    if at.len() > 0 {
        assert(wanted(at[0]));
        assert(is_new(design, board, at[0]) || is_updated(design, board, at[0]));
    }
    if exists|i: int|
        0 <= i < n && (#[trigger] is_new(design, board, i) || is_updated(design, board, i)) {
        let i = choose|i: int|
            0 <= i < n && (#[trigger] is_new(design, board, i) || is_updated(design, board, i));
        assert(wanted(i));
        assert(at.contains(i));
    }
}

/// The number, as far as it fits.
pub open spec fn fitting(count: nat) -> usize {
    if count > usize::MAX {
        usize::MAX
    } else {
        count as usize
    }
}

/// The counts of a plan: nothing is applied yet, and a plan in conflict changes
/// nothing. A footprint that no symbol has is kept, and skipped symbols are
/// counted once.
pub proof fn law_a_plan_counts_what_it_does(design: ExportedDesign, board: BoardState)
    requires
        valid(design, board),
    ensures
        ({
            let counts = plan_counts(design, board);
            let n = design.components@.len();
            let clean = plan_conflicts(design, board).len() == 0;
            &&& counts.added.applied == 0 && counts.updated.applied == 0
                && counts.pads_reassigned.applied == 0 && counts.board_only_preserved.applied == 0
                && counts.skipped_by_flag.applied == 0 && counts.conflicts.applied == 0
            &&& counts.conflicts.planned == fitting(plan_conflicts(design, board).len())
            &&& !clean ==> counts.added.planned == 0 && counts.updated.planned == 0
                && counts.pads_reassigned.planned == 0
            &&& clean ==> counts.added.planned == fitting(
                positions_where(|i: int| is_new(design, board, i), n).len(),
            )
            &&& clean ==> counts.updated.planned == fitting(
                positions_where(|i: int| is_updated(design, board, i), n).len(),
            )
            &&& clean ==> counts.pads_reassigned.planned == fitting(
                reassignments(design, board, n),
            )
            &&& counts.board_only_preserved.planned == fitting(
                positions_where(
                    |k: int| !is_taken(design, board, n as int, k),
                    board.footprints@.len(),
                ).len(),
            )
            &&& counts.skipped_by_flag.planned == fitting(
                positions_where(
                    |s: int| counts_as_skipped(design, s),
                    design.skipped@.len(),
                ).len(),
            )
        }),
{
    lemma_additions(design, board, design.components@.len());
    lemma_updates(design, board, design.components@.len());
    lemma_board_only(design, board, board.footprints@.len());
    lemma_skipped_count(design, design.skipped@.len());
}

/// The pads that component `i` gives another net: those of its footprint that
/// differ and that no routed copper holds.
pub open spec fn moved_pads(design: ExportedDesign, board: BoardState, i: int) -> Set<Seq<char>> {
    Set::new(
        |pad: Seq<char>|
            exists|k: int| #[trigger]
                goes_to(design, board, i, k) && pad_differs(
                    design.components@[i],
                    board.footprints@[k],
                    pad,
                ) && !pad_is_routed(board, design.components@[i], board.footprints@[k], pad),
    )
}

/// Each component adds the pads that it gives another net to the number of
/// those of the components before it.
pub proof fn law_every_moved_pad_is_counted(design: ExportedDesign, board: BoardState, n: nat)
    requires
        valid(design, board),
        n < design.components@.len(),
    ensures
        reassignments(design, board, 0) == 0,
        moved_pads(design, board, n as int).finite(),
        reassignments(design, board, n + 1) == reassignments(design, board, n) + moved_pads(
            design,
            board,
            n as int,
        ).len(),
{
    lemma_verdict(design, board, n as int);
    let component = design.components@[n as int];
    let moved = moved_pads(design, board, n as int);
    match verdict(design, board, n as int) {
        Verdict::Matched { index } => {
            let footprint = board.footprints@[index];
            let pads = pads_of(component, footprint);
            lemma_pads_of(component, footprint);
            lemma_count_pads(board, component, footprint, pads);
            let some = Set::new(
                |pad: Seq<char>|
                    pads.contains(pad) && pad_changes(component, footprint, pad) && !pad_blocked(
                        board,
                        component,
                        footprint,
                        pad,
                    ),
            );
            assert(some =~= moved) by {
                assert forall|pad: Seq<char>| some.contains(pad) <==> moved.contains(pad) by {
                    if some.contains(pad) {
                        assert(goes_to(design, board, n as int, index));
                    }
                    if moved.contains(pad) {
                        let k = choose|k: int| #[trigger]
                            goes_to(design, board, n as int, k) && pad_differs(
                                component,
                                board.footprints@[k],
                                pad,
                            ) && !pad_is_routed(board, component, board.footprints@[k], pad);
                        lemma_one_home(design, board, n as int, k, index);
                    }
                }
            }
        },
        _ => {
            assert(moved =~= Set::empty());
        },
    }
}

// ─── Proofs ───────────────────────────────────────────────────────────────────

proof fn lemma_contains_sum(a: Seq<DiagnosticView>, b: Seq<DiagnosticView>, d: DiagnosticView)
    ensures
        (a + b).contains(d) <==> a.contains(d) || b.contains(d),
{
    let both = a + b;
    if a.contains(d) {
        assert(both[a.index_of(d)] == d);
    }
    if b.contains(d) {
        assert(both[a.len() + b.index_of(d)] == d);
    }
    if both.contains(d) {
        let i = both.index_of(d);
        if i < a.len() {
            assert(a[i] == d);
        } else {
            assert(b[i - a.len()] == d);
        }
    }
}

proof fn lemma_at_path(footprints: Seq<BoardFootprint>, path: Seq<char>)
    ensures
        match at_path(footprints, path) {
            Some(k) => is_last_with_path(footprints, path, k) && !no_path(footprints, path),
            None => no_path(footprints, path),
        },
    decreases footprints.len(),
{
    if footprints.len() > 0 {
        let rest = footprints.drop_last();
        lemma_at_path(rest, path);
        assert(footprints[footprints.len() - 1] == footprints.last());
        assert forall|k: int| 0 <= k < rest.len() implies #[trigger] rest[k]
            == footprints[k] by {}
        if at_path(footprints, path) is Some {
            let k = at_path(footprints, path)->0;
            assert forall|m: int| k < m < footprints.len() implies !carries_path(
                #[trigger] footprints[m],
                path,
            ) by {
                if m < rest.len() {
                    assert(rest[m] == footprints[m]);
                }
            }
            assert(carries_path(footprints[k], path)) by {
                if k < rest.len() {
                    assert(rest[k] == footprints[k]);
                }
            }
        } else {
            assert forall|k: int| 0 <= k < footprints.len() implies !carries_path(
                #[trigger] footprints[k],
                path,
            ) by {
                if k < rest.len() {
                    assert(rest[k] == footprints[k]);
                }
            }
        }
    }
}

proof fn lemma_at_reference(footprints: Seq<BoardFootprint>, reference: Seq<char>)
    ensures
        match at_reference(footprints, reference) {
            Some(k) => is_last_named(footprints, reference, k) && !no_name(footprints, reference),
            None => no_name(footprints, reference),
        },
    decreases footprints.len(),
{
    if footprints.len() > 0 {
        let rest = footprints.drop_last();
        lemma_at_reference(rest, reference);
        assert(footprints[footprints.len() - 1] == footprints.last());
        assert forall|k: int| 0 <= k < rest.len() implies #[trigger] rest[k]
            == footprints[k] by {}
        if at_reference(footprints, reference) is Some {
            let k = at_reference(footprints, reference)->0;
            assert forall|m: int| k < m < footprints.len() implies (
            #[trigger] footprints[m]).reference@ != reference by {
                if m < rest.len() {
                    assert(rest[m] == footprints[m]);
                }
            }
            assert(footprints[k].reference@ == reference) by {
                if k < rest.len() {
                    assert(rest[k] == footprints[k]);
                }
            }
        } else {
            assert forall|k: int| 0 <= k < footprints.len() implies (
            #[trigger] footprints[k]).reference@ != reference by {
                if k < rest.len() {
                    assert(rest[k] == footprints[k]);
                }
            }
        }
    }
}

proof fn lemma_index(footprints: Seq<BoardFootprint>, component: DesignComponent, k: int)
    ensures
        component_index(footprints, component) == Some(k) <==> is_home(footprints, component, k),
        component_index(footprints, component) is None ==> !is_home(footprints, component, k),
{
    lemma_at_path(footprints, component.symbol_path@);
    lemma_at_reference(footprints, component.reference@);
    if is_home(footprints, component, k) {
        if at_path(footprints, component.symbol_path@) is Some {
            let m = at_path(footprints, component.symbol_path@)->0;
            assert(carries_path(footprints[m], component.symbol_path@));
            assert(carries_path(footprints[k], component.symbol_path@));
            if m < k {
                assert(!carries_path(footprints[k], component.symbol_path@));
            } else if k < m {
                assert(!carries_path(footprints[m], component.symbol_path@));
            }
        } else {
            assert(!is_last_with_path(footprints, component.symbol_path@, k));
            let m = at_reference(footprints, component.reference@)->0;
            assert(footprints[m].reference@ == component.reference@);
            assert(footprints[k].reference@ == component.reference@);
            if m < k {
                assert(footprints[k].reference@ != component.reference@);
            } else if k < m {
                assert(footprints[m].reference@ != component.reference@);
            }
        }
    }
}

proof fn lemma_skipped_index(footprints: Seq<BoardFootprint>, skipped: SkippedComponent, k: int)
    ensures
        skipped_index(footprints, skipped) == Some(k) <==> is_skipped_home(
            footprints,
            skipped,
            k,
        ),
        skipped_index(footprints, skipped) is None <==> no_path(
            footprints,
            skipped.symbol_path@,
        ) && no_name(footprints, skipped.reference@),
{
    lemma_at_path(footprints, skipped.symbol_path@);
    lemma_at_reference(footprints, skipped.reference@);
    if is_skipped_home(footprints, skipped, k) {
        if at_path(footprints, skipped.symbol_path@) is Some {
            let m = at_path(footprints, skipped.symbol_path@)->0;
            assert(carries_path(footprints[k], skipped.symbol_path@));
            assert(carries_path(footprints[m], skipped.symbol_path@));
            if m < k {
                assert(!carries_path(footprints[k], skipped.symbol_path@));
            } else if k < m {
                assert(!carries_path(footprints[m], skipped.symbol_path@));
            }
        } else {
            assert(!is_last_with_path(footprints, skipped.symbol_path@, k));
            let m = at_reference(footprints, skipped.reference@)->0;
            assert(footprints[m].reference@ == skipped.reference@);
            assert(footprints[k].reference@ == skipped.reference@);
            if m < k {
                assert(footprints[k].reference@ != skipped.reference@);
            } else if k < m {
                assert(footprints[m].reference@ != skipped.reference@);
            }
        }
    }
}

proof fn lemma_first(
    ids: Seq<Identity>,
    names: Seq<Seq<char>>,
    places: Seq<Seq<char>>,
    i: int,
)
    requires
        0 <= i < ids.len(),
        names.len() == ids.len(),
        places.len() == ids.len(),
        forall|j: int|
            0 <= j < ids.len() ==> (#[trigger] ids[j]).reference == names[j] && ids[j].path
                == places[j],
    ensures
        reference_repeated(ids, i) == !has_own_reference(names, i),
        accepted(ids, i) == is_first(names, places, i),
{
    assert forall|m: int| 0 <= m < ids.len() implies reference_repeated(ids, m)
        == !#[trigger] has_own_reference(names, m) by {
        if reference_repeated(ids, m) {
            let j = choose|j: int|
                0 <= j < m && (#[trigger] ids[j]).reference == ids[m].reference;
            assert(names[j] == names[m]);
        }
        if !has_own_reference(names, m) {
            let j = choose|j: int| 0 <= j < m && #[trigger] names[j] == names[m];
            assert(ids[j].reference == ids[m].reference);
        }
    }
    if path_repeated(ids, i) {
        let j = choose|j: int|
            0 <= j < i && !reference_repeated(ids, j) && (#[trigger] ids[j]).path == ids[i].path;
        assert(has_own_reference(names, j));
        assert(places[j] == places[i]);
    }
    if has_own_reference(names, i) && !is_first(names, places, i) {
        let j = choose|j: int|
            0 <= j < i && has_own_reference(names, j) && #[trigger] places[j] == places[i];
        assert(ids[j].path == ids[i].path);
        assert(!reference_repeated(ids, j));
    }
}

proof fn lemma_counts(design: ExportedDesign, i: int)
    requires
        0 <= i < design.components@.len(),
    ensures
        reference_repeated(component_ids(design.components@), i) == !has_own_reference(
            references(design.components@),
            i,
        ),
        accepted(component_ids(design.components@), i) == counts(design, i),
{
    lemma_first(
        component_ids(design.components@),
        references(design.components@),
        paths(design.components@),
        i,
    );
}

proof fn lemma_counts_as_skipped(design: ExportedDesign, s: int)
    requires
        0 <= s < design.skipped@.len(),
    ensures
        accepted(skipped_ids(design.skipped@), s) == counts_as_skipped(design, s),
{
    lemma_first(
        skipped_ids(design.skipped@),
        skipped_references(design.skipped@),
        skipped_paths(design.skipped@),
        s,
    );
}

proof fn lemma_taken(design: ExportedDesign, board: BoardState, n: int, k: int)
    requires
        0 <= n <= design.components@.len(),
    ensures
        claimed(design, board, n, k) == is_taken(design, board, n, k),
{
    let footprints = board.footprints@;
    assert forall|s: int| 0 <= s < design.skipped@.len() implies (accepted(
        skipped_ids(design.skipped@),
        s,
    ) && skipped_index(footprints, #[trigger] design.skipped@[s]) == Some(k)) == (
    counts_as_skipped(design, s) && is_skipped_home(footprints, design.skipped@[s], k)) by {
        lemma_counts_as_skipped(design, s);
        lemma_skipped_index(footprints, design.skipped@[s], k);
    }
    assert forall|j: int| 0 <= j < n implies (accepted(component_ids(design.components@), j)
        && component_index(footprints, #[trigger] design.components@[j]) == Some(k)) == (counts(
        design,
        j,
    ) && is_home(footprints, design.components@[j], k)) by {
        lemma_counts(design, j);
        lemma_index(footprints, design.components@[j], k);
    }
    assert(claimed_by_skipped(footprints, design.skipped@, design.skipped@.len() as int, k)
        == exists|s: int|
        0 <= s < design.skipped@.len() && counts_as_skipped(design, s) && is_skipped_home(
            footprints,
            #[trigger] design.skipped@[s],
            k,
        ));
    assert(claimed_by_component(footprints, design.components@, n, k) == exists|j: int|
        0 <= j < n && counts(design, j) && is_home(footprints, #[trigger] design.components@[j], k));
}

proof fn lemma_candidates(design: ExportedDesign, board: BoardState, i: int, m: nat)
    requires
        0 <= i < design.components@.len(),
        m <= board.footprints@.len(),
    ensures
        rename_candidates(design, board, i, m) == positions_where(
            |k: int| resembles(design, board, i, k),
            m,
        ).map_values(|k: int| board.footprints@[k].reference@),
    decreases m,
{
    if m > 0 {
        lemma_candidates(design, board, i, (m - 1) as nat);
        lemma_taken(design, board, i, m - 1);
        assert(may_be_renamed(design, board, i, m - 1) == resembles(design, board, i, m - 1));
    }
    assert(rename_candidates(design, board, i, m) =~= positions_where(
        |k: int| resembles(design, board, i, k),
        m,
    ).map_values(|k: int| board.footprints@[k].reference@));
}

proof fn lemma_lookalikes(design: ExportedDesign, board: BoardState, i: int)
    requires
        0 <= i < design.components@.len(),
    ensures
        rename_candidates(design, board, i, board.footprints@.len()) == lookalikes(
            design,
            board,
            i,
        ).map_values(|k: int| board.footprints@[k].reference@),
        rename_candidates(design, board, i, board.footprints@.len()).len() > 0 <==> exists|k: int|
            0 <= k < board.footprints@.len() && #[trigger] resembles(design, board, i, k),
{
    let m = board.footprints@.len();
    let alike = |k: int| resembles(design, board, i, k);
    lemma_candidates(design, board, i, m);
    crate::lists::lemma_positions(alike, m);
    let list = positions_where(alike, m);
    assert(list == lookalikes(design, board, i));
    if list.len() > 0 {
        assert(alike(list[0]));
        assert(resembles(design, board, i, list[0]));
    }
    if exists|k: int| 0 <= k < m && #[trigger] resembles(design, board, i, k) {
        let k = choose|k: int| 0 <= k < m && #[trigger] resembles(design, board, i, k);
        assert(alike(k));
        assert(list.contains(k));
    }
}

/// What the decision about a component rests on.
proof fn lemma_verdict(design: ExportedDesign, board: BoardState, i: int)
    requires
        0 <= i < design.components@.len(),
    ensures
        ({
            let component = design.components@[i];
            let footprints = board.footprints@;
            let own = has_own_reference(references(design.components@), i);
            let lost = no_path(footprints, component.symbol_path@);
            let named = at_reference(footprints, component.reference@);
            match verdict(design, board, i) {
                Verdict::RepeatedReference => !own,
                Verdict::RepeatedIdentity => own && !counts(design, i),
                Verdict::ReferenceTaken { index } => counts(design, i) && lost && is_last_named(
                    footprints,
                    component.reference@,
                    index,
                ) && footprints[index].symbol_path is Some && no_home(design, board, i),
                Verdict::PossibleRename => counts(design, i) && lost && no_name(
                    footprints,
                    component.reference@,
                ) && (exists|k: int|
                    0 <= k < footprints.len() && #[trigger] resembles(design, board, i, k))
                    && no_home(design, board, i),
                Verdict::New => is_new(design, board, i) && no_home(design, board, i),
                Verdict::RenameCollision { index, other } => counts(design, i) && is_home(
                    footprints,
                    component,
                    index,
                ) && collides(design, board, i, index) && is_last_named(
                    footprints,
                    component.reference@,
                    other,
                ),
                Verdict::FootprintChanged { index } => counts(design, i) && is_home(
                    footprints,
                    component,
                    index,
                ) && !collides(design, board, i, index) && footprints[index].footprint_id@
                    != component.footprint_id@,
                Verdict::Matched { index } => goes_to(design, board, i, index),
            }
        }),
        is_new(design, board, i) ==> verdict(design, board, i) is New,
        forall|k: int| #[trigger]
            goes_to(design, board, i, k) ==> verdict(design, board, i) == (Verdict::Matched {
                index: k,
            }),
{
    let component = design.components@[i];
    let footprints = board.footprints@;
    lemma_counts(design, i);
    lemma_at_path(footprints, component.symbol_path@);
    lemma_at_reference(footprints, component.reference@);
    lemma_lookalikes(design, board, i);
    assert forall|k: int| component_index(footprints, component) == Some(k) <==> #[trigger] is_home(
        footprints,
        component,
        k,
    ) by {
        lemma_index(footprints, component, k);
    }
    if component_index(footprints, component) is Some {
        let index = component_index(footprints, component)->0;
        assert(is_home(footprints, component, index));
        assert(0 <= index < footprints.len());
        if footprints[index].reference@ != component.reference@ && at_reference(
            footprints,
            component.reference@,
        ) is Some {
            assert(at_reference(footprints, component.reference@)->0 != index);
        }
    }
}

/// No footprint is that of component `i`.
pub open spec fn no_home(design: ExportedDesign, board: BoardState, i: int) -> bool {
    forall|k: int| !#[trigger] is_home(board.footprints@, design.components@[i], k)
}

proof fn lemma_one_home(design: ExportedDesign, board: BoardState, i: int, j: int, k: int)
    requires
        0 <= i < design.components@.len(),
        is_home(board.footprints@, design.components@[i], j),
        is_home(board.footprints@, design.components@[i], k),
    ensures
        j == k,
{
    lemma_index(board.footprints@, design.components@[i], j);
    lemma_index(board.footprints@, design.components@[i], k);
}

proof fn lemma_last_named_once(footprints: Seq<BoardFootprint>, name: Seq<char>, j: int, k: int)
    requires
        is_last_named(footprints, name, j),
        is_last_named(footprints, name, k),
    ensures
        j == k,
{
    if j < k {
        assert(footprints[k].reference@ != name);
    } else if k < j {
        assert(footprints[j].reference@ != name);
    }
}

proof fn lemma_board_due(footprints: Seq<BoardFootprint>, d: DiagnosticView)
    ensures
        board_conflicts(footprints).contains(d) <==> is_due_to_board(footprints, d),
    decreases footprints.len(),
{
    if footprints.len() > 0 {
        let rest = footprints.drop_last();
        let last = footprints.last();
        let end = footprints.len() - 1;
        assert(footprints[end] == last);
        assert forall|k: int| 0 <= k < rest.len() implies #[trigger] rest[k]
            == footprints[k] by {}
        lemma_board_due(rest, d);
        let more = footprint_conflicts(rest, last);
        lemma_contains_sum(board_conflicts(rest), more, d);
        lemma_at_reference(rest, last.reference@);
        if last.symbol_path is Some {
            lemma_at_path(rest, last.symbol_path->0@);
        }
        let first = about(
            "duplicate_board_reference"@,
            "board contains duplicate reference "@ + last.reference@,
            last.reference@,
        );
        if more.contains(d) {
            let q = more.index_of(d);
            if at_reference(rest, last.reference@) is Some && d == first {
                let j = at_reference(rest, last.reference@)->0;
                assert(rest[j] == footprints[j]);
                assert(is_due_to_pair(footprints[j], footprints[end], d));
            } else {
                let j = at_path(rest, last.symbol_path->0@)->0;
                assert(rest[j] == footprints[j]);
                assert(is_due_to_pair(footprints[j], footprints[end], d));
            }
        }
        if is_due_to_board(rest, d) {
            let (j, k) = choose|j: int, k: int|
                0 <= j < k < rest.len() && is_due_to_pair(
                    #[trigger] rest[j],
                    #[trigger] rest[k],
                    d,
                );
            assert(footprints[j] == rest[j] && footprints[k] == rest[k]);
        }
        if is_due_to_board(footprints, d) {
            let (j, k) = choose|j: int, k: int|
                0 <= j < k < footprints.len() && is_due_to_pair(
                    #[trigger] footprints[j],
                    #[trigger] footprints[k],
                    d,
                );
            assert(rest[j] == footprints[j]);
            if k < end {
                assert(rest[k] == footprints[k]);
            } else {
                if told(
                    d,
                    "duplicate_board_reference"@,
                    "board contains duplicate reference "@ + last.reference@,
                    last.reference@,
                ) && footprints[j].reference@ == last.reference@ {
                    assert(at_reference(rest, last.reference@) is Some);
                    assert(d == first);
                    assert(more[0] == d);
                } else {
                    assert(carries_path(rest[j], last.symbol_path->0@));
                    assert(at_path(rest, last.symbol_path->0@) is Some);
                    assert(more[more.len() - 1] == d);
                }
            }
        }
    }
}

proof fn lemma_skipped_due(design: ExportedDesign, board: BoardState, n: nat, d: DiagnosticView)
    requires
        n <= design.skipped@.len(),
    ensures
        all_skipped_conflicts(board.footprints@, design.skipped@, n).contains(d) <==> exists|s: int|
            0 <= s < n && #[trigger] is_due_to_skipped(design, board, s, d),
    decreases n,
{
    if n > 0 {
        lemma_skipped_due(design, board, (n - 1) as nat, d);
        let footprints = board.footprints@;
        let more = skipped_conflicts(footprints, design.skipped@, n - 1);
        lemma_contains_sum(
            all_skipped_conflicts(footprints, design.skipped@, (n - 1) as nat),
            more,
            d,
        );
        lemma_counts_as_skipped(design, n - 1);
        lemma_skipped_index(footprints, design.skipped@[n - 1], 0);
        if more.contains(d) {
            assert(more[0] == d);
            assert(is_due_to_skipped(design, board, n - 1, d));
        }
        if is_due_to_skipped(design, board, n - 1, d) {
            assert(more.len() == 1);
            assert(more[0] == d);
        }
    }
}

proof fn lemma_components_due(
    design: ExportedDesign,
    board: BoardState,
    n: nat,
    d: DiagnosticView,
)
    requires
        valid(design, board),
        n <= design.components@.len(),
    ensures
        all_component_conflicts(design, board, n).contains(d) <==> exists|i: int|
            0 <= i < n && #[trigger] is_due_to_component(design, board, i, d),
    decreases n,
{
    if n > 0 {
        lemma_components_due(design, board, (n - 1) as nat, d);
        lemma_contains_sum(
            all_component_conflicts(design, board, (n - 1) as nat),
            component_conflicts(design, board, n - 1),
            d,
        );
        lemma_component_due(design, board, n - 1, d);
    }
}

proof fn lemma_component_due(design: ExportedDesign, board: BoardState, i: int, d: DiagnosticView)
    requires
        valid(design, board),
        0 <= i < design.components@.len(),
    ensures
        component_conflicts(design, board, i).contains(d) <==> is_due_to_component(
            design,
            board,
            i,
            d,
        ),
{
    let component = design.components@[i];
    let footprints = board.footprints@;
    let reference = component.reference@;
    let list = component_conflicts(design, board, i);
    lemma_verdict(design, board, i);
    lemma_lookalikes(design, board, i);
    let names = |k: int| footprints[k].reference@;
    assert(rename_candidates(design, board, i, footprints.len()) =~= lookalikes(
        design,
        board,
        i,
    ).map_values(names));
    match verdict(design, board, i) {
        Verdict::ReferenceTaken { index } => {
            assert(list.contains(d) ==> list[0] == d);
            assert(list[0] == about(
                "reference_identity_conflict"@,
                "reference "@ + reference
                    + " belongs to a different schematic identity on the board"@,
                reference,
            ));
            assert(is_last_named(footprints, reference, index));
            assert(is_due_to_component(design, board, i, list[0]));
        },
        Verdict::RepeatedReference => {
            assert(list.contains(d) ==> list[0] == d);
            assert(is_due_to_component(design, board, i, list[0]));
            assert(list.contains(list[0]));
        },
        Verdict::RepeatedIdentity => {
            assert(list.contains(d) ==> list[0] == d);
            assert(is_due_to_component(design, board, i, list[0]));
            assert(list.contains(list[0]));
        },
        Verdict::PossibleRename => {
            assert(list.contains(d) ==> list[0] == d);
            assert(is_due_to_component(design, board, i, list[0]));
            assert(list.contains(list[0]));
            assert forall|k: int| !#[trigger] is_last_named(footprints, reference, k) by {
                if is_last_named(footprints, reference, k) {
                    assert(footprints[k].reference@ == reference);
                }
            }
        },
        Verdict::New => {
            assert forall|k: int| !#[trigger] is_last_named(footprints, reference, k) by {
                if is_last_named(footprints, reference, k) {
                    assert(footprints[k].reference@ == reference);
                }
            }
        },
        Verdict::RenameCollision { index, other } => {
            assert(list.contains(d) ==> list[0] == d);
            lemma_home_due(design, board, i, index, d);
            assert(is_due_at_home(design, board, i, index, list[0]));
            if is_due_at_home(design, board, i, index, d) {
                let m = choose|m: int| #[trigger]
                    is_last_named(footprints, reference, m) && told(
                        d,
                        "reference_rename_collision"@,
                        "cannot rename "@ + footprints[index].reference@ + " to "@ + reference
                            + " because that reference belongs to board footprint "@
                            + footprints[m].kiid@,
                        reference,
                    );
                lemma_last_named_once(footprints, reference, m, other);
                assert(d == list[0]);
            }
        },
        Verdict::FootprintChanged { index } => {
            assert(list.contains(d) ==> list[0] == d);
            lemma_home_due(design, board, i, index, d);
            assert(is_due_at_home(design, board, i, index, list[0]));
            if is_due_at_home(design, board, i, index, d) {
                assert(d == list[0]);
            }
        },
        Verdict::Matched { index } => {
            let footprint = footprints[index];
            lemma_home_due(design, board, i, index, d);
            lemma_pads_of(component, footprint);
            lemma_pads_due(board, component, footprint, pads_of(component, footprint), d);
        },
    }
}

/// A component with a footprint has diagnostics about that footprint only.
proof fn lemma_home_due(
    design: ExportedDesign,
    board: BoardState,
    i: int,
    index: int,
    d: DiagnosticView,
)
    requires
        0 <= i < design.components@.len(),
        counts(design, i),
        is_home(board.footprints@, design.components@[i], index),
    ensures
        is_due_to_component(design, board, i, d) <==> is_due_at_home(design, board, i, index, d),
{
    let component = design.components@[i];
    let footprints = board.footprints@;
    assert forall|k: int| #[trigger] is_home(footprints, component, k) implies k == index by {
        lemma_one_home(design, board, i, k, index);
    }
    if no_path(footprints, component.symbol_path@) {
        assert(!is_last_with_path(footprints, component.symbol_path@, index));
        assert(is_last_named(footprints, component.reference@, index));
        assert(footprints[index].reference@ == component.reference@);
        assert forall|k: int| #[trigger]
            is_last_named(footprints, component.reference@, k) implies k == index by {
            lemma_last_named_once(footprints, component.reference@, k, index);
        }
    }
}

proof fn lemma_pads_of(component: DesignComponent, footprint: BoardFootprint)
    requires
        component.pad_nets.ordered(),
        footprint.pad_nets.ordered(),
    ensures
        forall|pad: Seq<char>| #[trigger]
            pads_of(component, footprint).contains(pad) <==> (component.pad_nets@.contains_key(pad)
                || footprint.pad_nets@.contains_key(pad)),
        pads_of(component, footprint).no_duplicates(),
        forall|pad: Seq<char>| #[trigger]
            pad_differs(component, footprint, pad) ==> pads_of(component, footprint).contains(pad),
        forall|pad: Seq<char>| #[trigger]
            pad_differs(component, footprint, pad) == pad_changes(component, footprint, pad),
{
    let members = component.pad_nets@.dom().union(footprint.pad_nets@.dom());
    crate::text::lemma_can_be_ordered(
        component.pad_nets.keys(),
        footprint.pad_nets.keys(),
        members,
    );
    let pads = pads_of(component, footprint);
    assert forall|i: int, j: int| 0 <= i < j < pads.len() implies pads[i] != pads[j] by {
        assert(crate::text::text_before(pads[i], pads[j]));
        crate::text::lemma_text_before_irreflexive(pads[i]);
    }
}

proof fn lemma_pads_due(
    board: BoardState,
    component: DesignComponent,
    footprint: BoardFootprint,
    pads: Seq<Seq<char>>,
    d: DiagnosticView,
)
    ensures
        pad_conflicts(board, component, footprint, pads).contains(d) <==> exists|pad: Seq<char>|
            #[trigger] pads.contains(pad) && pad_differs(component, footprint, pad) && pad_is_routed(
                board,
                component,
                footprint,
                pad,
            ) && told(
                d,
                "routed_pad_net_change"@,
                component.reference@ + " pad "@ + pad + " would change from '"@ + net_name(
                    footprint.pad_nets@,
                    pad,
                ) + "' to '"@ + net_name(component.pad_nets@, pad)
                    + "' while routed copper uses that net"@,
                component.reference@,
            ),
    decreases pads.len(),
{
    if pads.len() > 0 {
        let rest = pads.drop_last();
        let last = pads.last();
        lemma_pads_due(board, component, footprint, rest, d);
        let before = pad_conflicts(board, component, footprint, rest);
        let list = pad_conflicts(board, component, footprint, pads);
        assert(pads[pads.len() - 1] == last);
        assert(pads.contains(last));
        assert(net_of(component.pad_nets@, last) == net_name(component.pad_nets@, last));
        assert(net_of(footprint.pad_nets@, last) == net_name(footprint.pad_nets@, last));
        assert(pad_blocked(board, component, footprint, last) == (pad_differs(
            component,
            footprint,
            last,
        ) && pad_is_routed(board, component, footprint, last)));
        assert forall|pad: Seq<char>| #[trigger] pads.contains(pad) <==> rest.contains(pad) || pad
            == last by {
            if rest.contains(pad) {
                assert(pads[rest.index_of(pad)] == pad);
            }
            if pads.contains(pad) {
                let q = pads.index_of(pad);
                if q < rest.len() {
                    assert(rest[q] == pad);
                }
            }
        }
        if before.contains(d) {
            assert(list[before.index_of(d)] == d);
            let pad = choose|pad: Seq<char>| #[trigger]
                rest.contains(pad) && pad_differs(component, footprint, pad) && pad_is_routed(
                    board,
                    component,
                    footprint,
                    pad,
                ) && told(
                    d,
                    "routed_pad_net_change"@,
                    component.reference@ + " pad "@ + pad + " would change from '"@ + net_name(
                        footprint.pad_nets@,
                        pad,
                    ) + "' to '"@ + net_name(component.pad_nets@, pad)
                        + "' while routed copper uses that net"@,
                    component.reference@,
                );
            assert(pads.contains(pad));
        }
        if pad_blocked(board, component, footprint, last) {
            assert(list[list.len() - 1].code == "routed_pad_net_change"@);
        }
        if list.contains(d) && !before.contains(d) {
            let q = list.index_of(d);
            assert(q == before.len());
            assert(pads.contains(last));
        }
        if exists|pad: Seq<char>| #[trigger]
            pads.contains(pad) && pad_differs(component, footprint, pad) && pad_is_routed(
                board,
                component,
                footprint,
                pad,
            ) && told(
                d,
                "routed_pad_net_change"@,
                component.reference@ + " pad "@ + pad + " would change from '"@ + net_name(
                    footprint.pad_nets@,
                    pad,
                ) + "' to '"@ + net_name(component.pad_nets@, pad)
                    + "' while routed copper uses that net"@,
                component.reference@,
            ) {
            let pad = choose|pad: Seq<char>| #[trigger]
                pads.contains(pad) && pad_differs(component, footprint, pad) && pad_is_routed(
                    board,
                    component,
                    footprint,
                    pad,
                ) && told(
                    d,
                    "routed_pad_net_change"@,
                    component.reference@ + " pad "@ + pad + " would change from '"@ + net_name(
                        footprint.pad_nets@,
                        pad,
                    ) + "' to '"@ + net_name(component.pad_nets@, pad)
                        + "' while routed copper uses that net"@,
                    component.reference@,
                );
            if rest.contains(pad) {
                assert(before.contains(d));
            } else {
                assert(pad == last);
                assert(list[list.len() - 1] == d);
            }
        }
    }
}

proof fn lemma_count_pads(
    board: BoardState,
    component: DesignComponent,
    footprint: BoardFootprint,
    pads: Seq<Seq<char>>,
)
    requires
        pads.no_duplicates(),
    ensures
        ({
            let moved = Set::new(
                |pad: Seq<char>|
                    pads.contains(pad) && pad_changes(component, footprint, pad) && !pad_blocked(
                        board,
                        component,
                        footprint,
                        pad,
                    ),
            );
            moved.finite() && moved.len() == pads_reassigned(board, component, footprint, pads)
        }),
    decreases pads.len(),
{
    let moved = Set::new(
        |pad: Seq<char>|
            pads.contains(pad) && pad_changes(component, footprint, pad) && !pad_blocked(
                board,
                component,
                footprint,
                pad,
            ),
    );
    if pads.len() == 0 {
        assert(moved =~= Set::empty());
    } else {
        let rest = pads.drop_last();
        let last = pads.last();
        assert(rest.no_duplicates()) by {
            assert forall|i: int, j: int| 0 <= i < j < rest.len() implies rest[i] != rest[j] by {
                assert(rest[i] == pads[i] && rest[j] == pads[j]);
            }
        }
        lemma_count_pads(board, component, footprint, rest);
        let before = Set::new(
            |pad: Seq<char>|
                rest.contains(pad) && pad_changes(component, footprint, pad) && !pad_blocked(
                    board,
                    component,
                    footprint,
                    pad,
                ),
        );
        assert(pads[pads.len() - 1] == last);
        assert forall|pad: Seq<char>| #[trigger] pads.contains(pad) <==> rest.contains(pad) || pad
            == last by {
            if rest.contains(pad) {
                assert(pads[rest.index_of(pad)] == pad);
            }
            if pads.contains(pad) {
                let q = pads.index_of(pad);
                if q < rest.len() {
                    assert(rest[q] == pad);
                }
            }
        }
        assert(!rest.contains(last)) by {
            if rest.contains(last) {
                let q = rest.index_of(last);
                assert(pads[q] == pads[pads.len() - 1]);
            }
        }
        if pad_changes(component, footprint, last) && !pad_blocked(
            board,
            component,
            footprint,
            last,
        ) {
            assert(moved =~= before.insert(last));
        } else {
            assert(moved =~= before);
        }
    }
}

proof fn lemma_news(design: ExportedDesign, board: BoardState, i: int, k: int)
    requires
        valid(design, board),
        0 <= i < design.components@.len(),
        0 <= k < board.footprints@.len(),
    ensures
        needs_update(board, design.components@[i], board.footprints@[k]) == has_news(
            design,
            board,
            i,
            k,
        ),
{
    let component = design.components@[i];
    let footprint = board.footprints@[k];
    let pads = pads_of(component, footprint);
    lemma_pads_of(component, footprint);
    lemma_count_pads(board, component, footprint, pads);
    let moved = Set::new(
        |pad: Seq<char>|
            pads.contains(pad) && pad_changes(component, footprint, pad) && !pad_blocked(
                board,
                component,
                footprint,
                pad,
            ),
    );
    if moved.len() > 0 {
        let pad = moved.choose();
        assert(moved.contains(pad));
        assert(pad_differs(component, footprint, pad));
        assert(!pad_is_routed(board, component, footprint, pad));
    }
    if exists|pad: Seq<char>| #[trigger]
        pad_differs(component, footprint, pad) && !pad_is_routed(
            board,
            component,
            footprint,
            pad,
        ) {
        let pad = choose|pad: Seq<char>| #[trigger]
            pad_differs(component, footprint, pad) && !pad_is_routed(
                board,
                component,
                footprint,
                pad,
            );
        assert(moved.contains(pad));
        if moved.len() == 0 {
            moved.lemma_len0_is_empty();
        }
    }
    assert(has_path(footprint, component.symbol_path@) == carries_path(
        footprint,
        component.symbol_path@,
    ));
}

proof fn lemma_additions(design: ExportedDesign, board: BoardState, n: nat)
    requires
        n <= design.components@.len(),
    ensures
        additions(design, board, n) == positions_where(
            |i: int| is_new(design, board, i),
            n,
        ).len(),
    decreases n,
{
    if n > 0 {
        lemma_additions(design, board, (n - 1) as nat);
        lemma_verdict(design, board, n - 1);
    }
}

proof fn lemma_change(design: ExportedDesign, board: BoardState, i: int)
    requires
        valid(design, board),
        0 <= i < design.components@.len(),
    ensures
        component_change(design, board, i) == (if is_new(design, board, i) || is_updated(
            design,
            board,
            i,
        ) {
            Some(change_for(design, board, i))
        } else {
            None
        }),
        is_updated(design, board, i) ==> !is_new(design, board, i),
        component_change(design, board, i) matches Some(change) ==> (change is Update
            <==> is_updated(design, board, i)),
{
    lemma_verdict(design, board, i);
    lemma_additions(design, board, i as nat);
    match verdict(design, board, i) {
        Verdict::Matched { index } => {
            assert(goes_to(design, board, i, index));
            let k = home_of(design, board, i);
            assert(goes_to(design, board, i, k));
            assert(k == index);
            lemma_news(design, board, i, index);
        },
        Verdict::New => {
            assert(clamped(board.bounds.max_x + STAGING_STEP) == nearest(
                board.bounds.max_x + 10_000_000,
            ));
        },
        _ => {},
    }
}

proof fn lemma_changes(design: ExportedDesign, board: BoardState, n: nat)
    requires
        valid(design, board),
        n <= design.components@.len(),
    ensures
        all_changes(design, board, n) == positions_where(
            |i: int| is_new(design, board, i) || is_updated(design, board, i),
            n,
        ).map_values(|i: int| change_for(design, board, i)),
    decreases n,
{
    if n > 0 {
        lemma_changes(design, board, (n - 1) as nat);
        lemma_change(design, board, n - 1);
    }
    assert(all_changes(design, board, n) =~= positions_where(
        |i: int| is_new(design, board, i) || is_updated(design, board, i),
        n,
    ).map_values(|i: int| change_for(design, board, i)));
}

proof fn lemma_updates(design: ExportedDesign, board: BoardState, n: nat)
    requires
        valid(design, board),
        n <= design.components@.len(),
    ensures
        updates(design, board, n) == positions_where(
            |i: int| is_updated(design, board, i),
            n,
        ).len(),
    decreases n,
{
    if n > 0 {
        lemma_updates(design, board, (n - 1) as nat);
        lemma_change(design, board, n - 1);
    }
}

proof fn lemma_board_only(design: ExportedDesign, board: BoardState, m: nat)
    requires
        m <= board.footprints@.len(),
    ensures
        board_only(design, board, m) == positions_where(
            |k: int| !is_taken(design, board, design.components@.len() as int, k),
            m,
        ).len(),
    decreases m,
{
    if m > 0 {
        lemma_board_only(design, board, (m - 1) as nat);
        lemma_taken(design, board, design.components@.len() as int, m - 1);
    }
}

proof fn lemma_skipped_count(design: ExportedDesign, n: nat)
    requires
        n <= design.skipped@.len(),
    ensures
        skipped_count(design.skipped@, n) == positions_where(
            |s: int| counts_as_skipped(design, s),
            n,
        ).len(),
    decreases n,
{
    if n > 0 {
        lemma_skipped_count(design, (n - 1) as nat);
        lemma_counts_as_skipped(design, n - 1);
    }
}

} // verus!
