//! Planning a schematic-to-board update.
//!
//! A plan is all or nothing: one conflict anywhere and no change is planned.

use crate::sync_types::{
    BoardFootprint, BoardState, ChangeView, DesignComponent, DiagnosticView, ExportedDesign, Point,
    PreservedView, SkippedComponent,
};
use crate::text::{joined, ordered_list_of};
use vstd::prelude::*;

verus! {

/// The distance between staged footprints and from the board's edge: 10 mm.
pub const STAGING_STEP: i64 = 10_000_000;

/// The nearest number that 64 bits hold.
pub open spec fn clamped(value: int) -> i64 {
    if value > i64::MAX {
        i64::MAX
    } else if value < i64::MIN {
        i64::MIN
    } else {
        value as i64
    }
}

/// The last footprint with this reference.
pub open spec fn at_reference(footprints: Seq<BoardFootprint>, reference: Seq<char>) -> Option<int>
    decreases footprints.len(),
{
    if footprints.len() == 0 {
        None
    } else if footprints.last().reference@ == reference {
        Some(footprints.len() - 1)
    } else {
        at_reference(footprints.drop_last(), reference)
    }
}

/// The footprint carries this schematic identity.
pub open spec fn has_path(footprint: BoardFootprint, path: Seq<char>) -> bool {
    footprint.symbol_path is Some && footprint.symbol_path->0@ == path
}

/// The last footprint with this schematic identity.
pub open spec fn at_path(footprints: Seq<BoardFootprint>, path: Seq<char>) -> Option<int>
    decreases footprints.len(),
{
    if footprints.len() == 0 {
        None
    } else if has_path(footprints.last(), path) {
        Some(footprints.len() - 1)
    } else {
        at_path(footprints.drop_last(), path)
    }
}

/// A conflict about a reference.
pub open spec fn about(
    code: Seq<char>,
    message: Seq<char>,
    reference: Seq<char>,
) -> DiagnosticView {
    DiagnosticView { code, message, reference: Some(reference) }
}

/// What is wrong with a footprint given those before it: a reference or an
/// identity that one of them has already.
pub open spec fn footprint_conflicts(
    earlier: Seq<BoardFootprint>,
    footprint: BoardFootprint,
) -> Seq<DiagnosticView> {
    let reference = footprint.reference@;
    let by_reference = if at_reference(earlier, reference) is Some {
        seq![
            about(
                "duplicate_board_reference"@,
                "board contains duplicate reference "@ + reference,
                reference,
            ),
        ]
    } else {
        Seq::empty()
    };
    let by_path = if footprint.symbol_path is Some && at_path(
        earlier,
        footprint.symbol_path->0@,
    ) is Some {
        seq![
            about(
                "duplicate_board_identity"@,
                "board contains duplicate schematic identity "@ + footprint.symbol_path->0@,
                reference,
            ),
        ]
    } else {
        Seq::empty()
    };
    by_reference + by_path
}

/// The conflicts of the board with itself.
pub open spec fn board_conflicts(footprints: Seq<BoardFootprint>) -> Seq<DiagnosticView>
    decreases footprints.len(),
{
    if footprints.len() == 0 {
        Seq::empty()
    } else {
        board_conflicts(footprints.drop_last()) + footprint_conflicts(
            footprints.drop_last(),
            footprints.last(),
        )
    }
}

/// A reference and a schematic identity.
pub struct Identity {
    pub reference: Seq<char>,
    pub path: Seq<char>,
}

/// The identities of the components.
pub open spec fn component_ids(components: Seq<DesignComponent>) -> Seq<Identity> {
    Seq::new(
        components.len(),
        |i: int|
            Identity { reference: components[i].reference@, path: components[i].symbol_path@ },
    )
}

/// The identities of the skipped symbols.
pub open spec fn skipped_ids(skipped: Seq<SkippedComponent>) -> Seq<Identity> {
    Seq::new(
        skipped.len(),
        |i: int| Identity { reference: skipped[i].reference@, path: skipped[i].symbol_path@ },
    )
}

/// An entry before this one has the same reference.
pub open spec fn reference_repeated(ids: Seq<Identity>, i: int) -> bool {
    exists|j: int| 0 <= j < i && (#[trigger] ids[j]).reference == ids[i].reference
}

/// An entry before this one, itself not refused for its reference, has the
/// same identity.
pub open spec fn path_repeated(ids: Seq<Identity>, i: int) -> bool {
    exists|j: int|
        0 <= j < i && !reference_repeated(ids, j) && (#[trigger] ids[j]).path == ids[i].path
}

/// The entry repeats nothing.
pub open spec fn accepted(ids: Seq<Identity>, i: int) -> bool {
    !reference_repeated(ids, i) && !path_repeated(ids, i)
}

/// The footprint that a skipped symbol already has on the board.
pub open spec fn skipped_index(
    footprints: Seq<BoardFootprint>,
    skipped: SkippedComponent,
) -> Option<int> {
    match at_path(footprints, skipped.symbol_path@) {
        Some(index) => Some(index),
        None => at_reference(footprints, skipped.reference@),
    }
}

/// What is wrong with a skipped symbol.
pub open spec fn skipped_conflicts(
    footprints: Seq<BoardFootprint>,
    skipped: Seq<SkippedComponent>,
    i: int,
) -> Seq<DiagnosticView> {
    let reference = skipped[i].reference@;
    if !accepted(skipped_ids(skipped), i) {
        seq![
            about(
                "duplicate_skipped_identity"@,
                "on_board=no instance "@ + reference
                    + " has a duplicate reference or identity"@,
                reference,
            ),
        ]
    } else if skipped_index(footprints, skipped[i]) is Some {
        seq![
            about(
                "on_board_exclusion_conflict"@,
                reference + " is marked on_board=no but already exists on the board"@,
                reference,
            ),
        ]
    } else {
        Seq::empty()
    }
}

/// The conflicts of the first `n` skipped symbols.
pub open spec fn all_skipped_conflicts(
    footprints: Seq<BoardFootprint>,
    skipped: Seq<SkippedComponent>,
    n: nat,
) -> Seq<DiagnosticView>
    decreases n,
{
    if n == 0 {
        Seq::empty()
    } else {
        all_skipped_conflicts(footprints, skipped, (n - 1) as nat) + skipped_conflicts(
            footprints,
            skipped,
            n - 1,
        )
    }
}

/// How many of the first `n` skipped symbols repeat nothing.
pub open spec fn skipped_count(skipped: Seq<SkippedComponent>, n: nat) -> nat
    decreases n,
{
    if n == 0 {
        0
    } else {
        skipped_count(skipped, (n - 1) as nat) + if accepted(skipped_ids(skipped), n - 1) {
            1nat
        } else {
            0
        }
    }
}

/// The footprint that a component updates: the one with its identity, or the
/// one with its reference where that has no identity yet.
pub open spec fn component_index(
    footprints: Seq<BoardFootprint>,
    component: DesignComponent,
) -> Option<int> {
    match at_path(footprints, component.symbol_path@) {
        Some(index) => Some(index),
        None => match at_reference(footprints, component.reference@) {
            Some(index) if footprints[index].symbol_path is None => Some(index),
            _ => None,
        },
    }
}

/// A skipped symbol has footprint `k` on the board.
pub open spec fn claimed_by_skipped(
    footprints: Seq<BoardFootprint>,
    skipped: Seq<SkippedComponent>,
    n: int,
    k: int,
) -> bool {
    exists|j: int|
        0 <= j < n && accepted(skipped_ids(skipped), j) && skipped_index(
            footprints,
            #[trigger] skipped[j],
        ) == Some(k)
}

/// One of the first `n` components updates footprint `k`.
pub open spec fn claimed_by_component(
    footprints: Seq<BoardFootprint>,
    components: Seq<DesignComponent>,
    n: int,
    k: int,
) -> bool {
    exists|j: int|
        0 <= j < n && accepted(component_ids(components), j) && component_index(
            footprints,
            #[trigger] components[j],
        ) == Some(k)
}

/// Footprint `k` belongs to a skipped symbol or to one of the first `n`
/// components.
pub open spec fn claimed(design: ExportedDesign, board: BoardState, n: int, k: int) -> bool {
    claimed_by_skipped(board.footprints@, design.skipped@, design.skipped@.len() as int, k)
        || claimed_by_component(board.footprints@, design.components@, n, k)
}

/// How many of the first `m` footprints belong to no symbol.
pub open spec fn board_only(design: ExportedDesign, board: BoardState, m: nat) -> nat
    decreases m,
{
    if m == 0 {
        0
    } else {
        board_only(design, board, (m - 1) as nat) + if claimed(
            design,
            board,
            design.components@.len() as int,
            m - 1,
        ) {
            0nat
        } else {
            1
        }
    }
}

/// Footprint `k` could be an earlier form of component `i` under another
/// reference: it belongs to nobody, has no identity, is not marked as absent
/// from the schematic, and has the same footprint and value.
pub open spec fn may_be_renamed(design: ExportedDesign, board: BoardState, i: int, k: int) -> bool {
    let footprint = board.footprints@[k];
    let component = design.components@[i];
    &&& !claimed(design, board, i, k)
    &&& footprint.symbol_path is None
    &&& !footprint.not_in_schematic
    &&& footprint.footprint_id@ == component.footprint_id@
    &&& footprint.value@ == component.value@
}

/// The references of those of the first `m` footprints that component `i`
/// could be a new name of.
pub open spec fn rename_candidates(
    design: ExportedDesign,
    board: BoardState,
    i: int,
    m: nat,
) -> Seq<Seq<char>>
    decreases m,
{
    if m == 0 {
        Seq::empty()
    } else {
        let rest = rename_candidates(design, board, i, (m - 1) as nat);
        if may_be_renamed(design, board, i, m - 1) {
            rest.push(board.footprints@[m - 1].reference@)
        } else {
            rest
        }
    }
}

/// What planning decides about a component.
pub enum Verdict {
    RepeatedReference,
    RepeatedIdentity,
    ReferenceTaken { index: int },
    PossibleRename,
    New,
    RenameCollision { index: int, other: int },
    FootprintChanged { index: int },
    Matched { index: int },
}

/// The decision about component `i`.
pub open spec fn verdict(design: ExportedDesign, board: BoardState, i: int) -> Verdict {
    let footprints = board.footprints@;
    let component = design.components@[i];
    let ids = component_ids(design.components@);
    let named = at_reference(footprints, component.reference@);
    if reference_repeated(ids, i) {
        Verdict::RepeatedReference
    } else if path_repeated(ids, i) {
        Verdict::RepeatedIdentity
    } else {
        match component_index(footprints, component) {
            None => {
                if named is Some {
                    Verdict::ReferenceTaken { index: named->0 }
                } else if rename_candidates(design, board, i, footprints.len()).len() > 0 {
                    Verdict::PossibleRename
                } else {
                    Verdict::New
                }
            },
            Some(index) => {
                if footprints[index].reference@ != component.reference@ && named is Some && named->0
                    != index {
                    Verdict::RenameCollision { index, other: named->0 }
                } else if footprints[index].footprint_id@ != component.footprint_id@ {
                    Verdict::FootprintChanged { index }
                } else {
                    Verdict::Matched { index }
                }
            },
        }
    }
}

/// The net of a pad; a pad without one has the empty name.
pub open spec fn net_of(pad_nets: Map<Seq<char>, String>, pad: Seq<char>) -> Seq<char> {
    if pad_nets.contains_key(pad) {
        pad_nets[pad]@
    } else {
        Seq::empty()
    }
}

/// The net of the pad differs between the component and the footprint.
pub open spec fn pad_changes(
    component: DesignComponent,
    footprint: BoardFootprint,
    pad: Seq<char>,
) -> bool {
    net_of(footprint.pad_nets@, pad) != net_of(component.pad_nets@, pad)
}

/// The net of the pad differs, and routed copper carries the old or the new.
pub open spec fn pad_blocked(
    board: BoardState,
    component: DesignComponent,
    footprint: BoardFootprint,
    pad: Seq<char>,
) -> bool {
    &&& pad_changes(component, footprint, pad)
    &&& board.routed_nets@.contains_key(net_of(footprint.pad_nets@, pad))
        || board.routed_nets@.contains_key(net_of(component.pad_nets@, pad))
}

/// The pads of either side, in text order.
pub open spec fn pads_of(component: DesignComponent, footprint: BoardFootprint) -> Seq<Seq<char>> {
    ordered_list_of(component.pad_nets@.dom().union(footprint.pad_nets@.dom()))
}

/// The conflicts of these pads.
pub open spec fn pad_conflicts(
    board: BoardState,
    component: DesignComponent,
    footprint: BoardFootprint,
    pads: Seq<Seq<char>>,
) -> Seq<DiagnosticView>
    decreases pads.len(),
{
    if pads.len() == 0 {
        Seq::empty()
    } else {
        let rest = pad_conflicts(board, component, footprint, pads.drop_last());
        let pad = pads.last();
        if pad_blocked(board, component, footprint, pad) {
            rest.push(
                about(
                    "routed_pad_net_change"@,
                    component.reference@ + " pad "@ + pad + " would change from '"@ + net_of(
                        footprint.pad_nets@,
                        pad,
                    ) + "' to '"@ + net_of(component.pad_nets@, pad)
                        + "' while routed copper uses that net"@,
                    component.reference@,
                ),
            )
        } else {
            rest
        }
    }
}

/// How many of these pads change to another net.
pub open spec fn pads_reassigned(
    board: BoardState,
    component: DesignComponent,
    footprint: BoardFootprint,
    pads: Seq<Seq<char>>,
) -> nat
    decreases pads.len(),
{
    if pads.len() == 0 {
        0
    } else {
        let rest = pads_reassigned(board, component, footprint, pads.drop_last());
        let pad = pads.last();
        if pad_changes(component, footprint, pad) && !pad_blocked(
            board,
            component,
            footprint,
            pad,
        ) {
            rest + 1
        } else {
            rest
        }
    }
}

/// What is wrong with component `i`.
pub open spec fn component_conflicts(
    design: ExportedDesign,
    board: BoardState,
    i: int,
) -> Seq<DiagnosticView> {
    let component = design.components@[i];
    let footprints = board.footprints@;
    let reference = component.reference@;
    match verdict(design, board, i) {
        Verdict::RepeatedReference => seq![
            about(
                "duplicate_schematic_reference"@,
                "schematic export contains duplicate reference "@ + reference,
                reference,
            ),
        ],
        Verdict::RepeatedIdentity => seq![
            about(
                "duplicate_schematic_identity"@,
                "schematic export contains duplicate identity "@ + component.symbol_path@,
                reference,
            ),
        ],
        Verdict::ReferenceTaken { index } => seq![
            about(
                "reference_identity_conflict"@,
                "reference "@ + reference
                    + " belongs to a different schematic identity on the board"@,
                footprints[index].reference@,
            ),
        ],
        Verdict::PossibleRename => seq![
            about(
                "reference_only_rename_ambiguous"@,
                reference + " has no stable board identity and could be a rename of "@ + joined(
                    rename_candidates(design, board, i, footprints.len()),
                    ", "@,
                ) + "; link or resolve the identity in KiCad"@,
                reference,
            ),
        ],
        Verdict::New => Seq::empty(),
        Verdict::RenameCollision { index, other } => seq![
            about(
                "reference_rename_collision"@,
                "cannot rename "@ + footprints[index].reference@ + " to "@ + reference
                    + " because that reference belongs to board footprint "@
                    + footprints[other].kiid@,
                reference,
            ),
        ],
        Verdict::FootprintChanged { index } => seq![
            about(
                "footprint_id_changed"@,
                reference + " uses "@ + footprints[index].footprint_id@ + " on the board but "@
                    + component.footprint_id@ + " in the schematic"@,
                reference,
            ),
        ],
        Verdict::Matched { index } => pad_conflicts(
            board,
            component,
            footprints[index],
            pads_of(component, footprints[index]),
        ),
    }
}

/// The conflicts of the first `n` components.
pub open spec fn all_component_conflicts(
    design: ExportedDesign,
    board: BoardState,
    n: nat,
) -> Seq<DiagnosticView>
    decreases n,
{
    if n == 0 {
        Seq::empty()
    } else {
        all_component_conflicts(design, board, (n - 1) as nat) + component_conflicts(
            design,
            board,
            n - 1,
        )
    }
}

/// Every conflict between the design and the board, in the order they are
/// reported.
pub open spec fn plan_conflicts(design: ExportedDesign, board: BoardState) -> Seq<DiagnosticView> {
    board_conflicts(board.footprints@) + all_skipped_conflicts(
        board.footprints@,
        design.skipped@,
        design.skipped@.len(),
    ) + all_component_conflicts(design, board, design.components@.len())
}

/// How many of the first `n` components are new to the board.
pub open spec fn additions(design: ExportedDesign, board: BoardState, n: nat) -> nat
    decreases n,
{
    if n == 0 {
        0
    } else {
        additions(design, board, (n - 1) as nat) + if verdict(design, board, n - 1) is New {
            1nat
        } else {
            0
        }
    }
}

/// How many pads of component `i` get another net.
pub open spec fn component_pads(design: ExportedDesign, board: BoardState, i: int) -> nat {
    match verdict(design, board, i) {
        Verdict::Matched { index } => pads_reassigned(
            board,
            design.components@[i],
            board.footprints@[index],
            pads_of(design.components@[i], board.footprints@[index]),
        ),
        _ => 0,
    }
}

/// The footprint differs from the component in something that the schematic
/// owns.
pub open spec fn needs_update(
    board: BoardState,
    component: DesignComponent,
    footprint: BoardFootprint,
) -> bool {
    ||| footprint.reference@ != component.reference@
    ||| footprint.value@ != component.value@
    ||| !has_path(footprint, component.symbol_path@)
    ||| footprint.dnp != component.dnp
    ||| pads_reassigned(board, component, footprint, pads_of(component, footprint)) > 0
}

/// The change that component `i` asks for.
pub open spec fn component_change(
    design: ExportedDesign,
    board: BoardState,
    i: int,
) -> Option<ChangeView> {
    let component = design.components@[i];
    match verdict(design, board, i) {
        Verdict::New => Some(
            ChangeView::Add {
                reference: component.reference@,
                value: component.value@,
                footprint_id: component.footprint_id@,
                symbol_path: component.symbol_path@,
                dnp: component.dnp,
                pad_nets: component.pad_nets@,
                position: Point {
                    x: clamped(board.bounds.max_x + STAGING_STEP),
                    y: clamped(
                        board.bounds.min_y + additions(design, board, i as nat) * STAGING_STEP,
                    ),
                },
            },
        ),
        Verdict::Matched { index } => {
            let footprint = board.footprints@[index];
            if needs_update(board, component, footprint) {
                Some(
                    ChangeView::Update {
                        kiid: footprint.kiid@,
                        reference: component.reference@,
                        value: component.value@,
                        symbol_path: component.symbol_path@,
                        dnp: component.dnp,
                        pad_nets: component.pad_nets@,
                        preserve: PreservedView {
                            position: footprint.position,
                            rotation: footprint.rotation,
                            layer: footprint.layer@,
                            locked: footprint.locked,
                        },
                    },
                )
            } else {
                None
            }
        },
        _ => None,
    }
}

/// The changes that the first `n` components ask for.
pub open spec fn all_changes(design: ExportedDesign, board: BoardState, n: nat) -> Seq<ChangeView>
    decreases n,
{
    if n == 0 {
        Seq::empty()
    } else {
        let rest = all_changes(design, board, (n - 1) as nat);
        match component_change(design, board, n - 1) {
            Some(change) => rest.push(change),
            None => rest,
        }
    }
}

/// How many of the first `n` components update a footprint.
pub open spec fn updates(design: ExportedDesign, board: BoardState, n: nat) -> nat
    decreases n,
{
    if n == 0 {
        0
    } else {
        updates(design, board, (n - 1) as nat) + match component_change(design, board, n - 1) {
            Some(ChangeView::Update { .. }) => 1nat,
            _ => 0,
        }
    }
}

/// How many pads the first `n` components give another net.
pub open spec fn reassignments(design: ExportedDesign, board: BoardState, n: nat) -> nat
    decreases n,
{
    if n == 0 {
        0
    } else {
        reassignments(design, board, (n - 1) as nat) + component_pads(design, board, n - 1)
    }
}

} // verus!
