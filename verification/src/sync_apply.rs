//! From a plan to its application: staging the additions, deciding whether to
//! apply, and holding the board to what was sent.

use crate::decimal::{number_text, write_number};
use crate::footprint_item::{
    apply_footprint_fields, child_updated, field_text, fields_applied, fields_outcome,
    text_of_field, FootprintChild, FootprintError, FootprintItem,
};
use crate::lists::ints;
use crate::planner::conflict;
use crate::sync_plan::clamped;
use crate::sync_types::{
    diagnostic_views, Bounds, CountPair, DiagnosticView, PlanStatus, PlannedChange, Point, SyncPlan,
};
use crate::text::{concat2, concat3, concat5, join, joined, opt_text, owned, text_eq, texts};
use crate::text_map::TextMap;
use vstd::prelude::*;
use vstd::string::*;

verus! {

/// The gap between staged footprints: 5 mm.
pub const STAGING_GAP: i64 = 5_000_000;

/// The extent that a footprint of unknown size is given: 10 mm.
pub const DEFAULT_EXTENT: u64 = 10_000_000;

/// The least extent of a footprint: 1 mm.
pub const LEAST_EXTENT: u64 = 1_000_000;

/// The size of a footprint, in nanometres.
#[derive(Clone, Copy, PartialEq, Eq, Debug, Structural)]
pub struct Extent {
    pub width: u64,
    pub height: u64,
}

/// The extent of a footprint as it was prepared, or the default one.
pub open spec fn extent_of(prepared: Map<Seq<char>, Extent>, footprint_id: Seq<char>) -> Extent {
    if prepared.contains_key(footprint_id) {
        prepared[footprint_id]
    } else {
        Extent { width: DEFAULT_EXTENT, height: DEFAULT_EXTENT }
    }
}

/// Where the next addition starts after the first `n` changes: each addition
/// takes its height and a gap.
pub open spec fn staged_y(
    changes: Seq<PlannedChange>,
    prepared: Map<Seq<char>, Extent>,
    start: i64,
    n: nat,
) -> i64
    decreases n,
{
    if n == 0 {
        start
    } else {
        let y = staged_y(changes, prepared, start, (n - 1) as nat);
        match changes[n - 1] {
            PlannedChange::Add { footprint_id, .. } => clamped(
                y + extent_of(prepared, footprint_id@).height + STAGING_GAP,
            ),
            _ => y,
        }
    }
}

/// Where change `i` is staged.
pub open spec fn staged_at(
    changes: Seq<PlannedChange>,
    prepared: Map<Seq<char>, Extent>,
    bounds: Bounds,
    i: int,
) -> Point {
    let extent = extent_of(prepared, changes[i]->footprint_id@);
    Point {
        x: clamped(bounds.max_x + STAGING_GAP + extent.width / 2),
        y: clamped(staged_y(changes, prepared, bounds.min_y, i as nat) + extent.height / 2),
    }
}

/// The change with its position replaced; an update has none.
pub open spec fn moved(change: PlannedChange, to: Point) -> PlannedChange {
    match change {
        PlannedChange::Add {
            reference,
            value,
            footprint_id,
            symbol_path,
            dnp,
            pad_nets,
            position,
        } => PlannedChange::Add {
            reference,
            value,
            footprint_id,
            symbol_path,
            dnp,
            pad_nets,
            position: to,
        },
        PlannedChange::Update { .. } => change,
    }
}

fn clamp(value: i128) -> (res: i64)
    ensures
        res == clamped(value as int),
{
    if value > i64::MAX as i128 {
        i64::MAX
    } else if value < i64::MIN as i128 {
        i64::MIN
    } else {
        value as i64
    }
}

fn find_extent(prepared: &TextMap<Extent>, footprint_id: &str) -> (res: Extent)
    ensures
        res == extent_of(prepared@, footprint_id@),
{
    match prepared.get(footprint_id) {
        Some(extent) => *extent,
        None => Extent { width: DEFAULT_EXTENT, height: DEFAULT_EXTENT },
    }
}

/// Gives every addition its place beside the board, by the size of its
/// footprint. Nothing else of the plan changes.
pub fn restage_additions(plan: &mut SyncPlan, prepared: &TextMap<Extent>, bounds: Bounds)
    ensures
        final(plan).changes@.len() == old(plan).changes@.len(),
        forall|i: int|
            0 <= i < old(plan).changes@.len() ==> #[trigger] final(plan).changes@[i] == moved(
                old(plan).changes@[i],
                staged_at(old(plan).changes@, prepared@, bounds, i),
            ),
        final(plan).status == old(plan).status,
        final(plan).plan_revision == old(plan).plan_revision,
        final(plan).counts == old(plan).counts,
        final(plan).diagnostics == old(plan).diagnostics,
{
    let ghost all = plan.changes@;
    let mut next_y: i64 = bounds.min_y;
    let mut i: usize = 0;
    while i < plan.changes.len()
        invariant
            i <= plan.changes@.len(),
            plan.changes@.len() == all.len(),
            all == old(plan).changes@,
            next_y == staged_y(all, prepared@, bounds.min_y, i as nat),
            forall|j: int|
                0 <= j < i ==> #[trigger] plan.changes@[j] == moved(
                    all[j],
                    staged_at(all, prepared@, bounds, j),
                ),
            forall|j: int| i <= j < all.len() ==> #[trigger] plan.changes@[j] == all[j],
            plan.status == old(plan).status,
            plan.plan_revision == old(plan).plan_revision,
            plan.counts == old(plan).counts,
            plan.diagnostics == old(plan).diagnostics,
        decreases plan.changes@.len() - i,
    {
        match &mut plan.changes[i] {
            PlannedChange::Add { footprint_id, position, .. } => {
                let extent = find_extent(prepared, footprint_id.as_str());
                *position = Point {
                    x: clamp(
                        bounds.max_x as i128 + STAGING_GAP as i128 + (extent.width / 2) as i128,
                    ),
                    y: clamp(next_y as i128 + (extent.height / 2) as i128),
                };
                next_y = clamp(next_y as i128 + extent.height as i128 + STAGING_GAP as i128);
            },
            PlannedChange::Update { .. } => {},
        }
        i += 1;
    }
}

/// The footprints that the first `n` changes add, each once, in the order in
/// which they are first asked for.
pub open spec fn added_footprints(changes: Seq<PlannedChange>, n: nat) -> Seq<Seq<char>>
    decreases n,
{
    if n == 0 {
        Seq::empty()
    } else {
        let rest = added_footprints(changes, (n - 1) as nat);
        match changes[n - 1] {
            PlannedChange::Add { footprint_id, .. } if !rest.contains(
                footprint_id@,
            ) => rest.push(footprint_id@),
            _ => rest,
        }
    }
}

/// The footprints that have to be prepared before a plan can be applied.
pub fn footprints_to_prepare(changes: &Vec<PlannedChange>) -> (res: Vec<String>)
    ensures
        texts(res@) == added_footprints(changes@, changes@.len()),
{
    let mut res: Vec<String> = Vec::new();
    let mut i: usize = 0;
    assert(texts(res@) =~= added_footprints(changes@, 0));
    while i < changes.len()
        invariant
            i <= changes@.len(),
            texts(res@) == added_footprints(changes@, i as nat),
        decreases changes@.len() - i,
    {
        let ghost before = res@;
        match &changes[i] {
            PlannedChange::Add { footprint_id, .. } => {
                if !crate::text::contains_text(&res, footprint_id.as_str()) {
                    res.push(footprint_id.clone());
                    assert(texts(res@) =~= texts(before).push(footprint_id@));
                }
            },
            PlannedChange::Update { .. } => {},
        }
        i += 1;
    }
    res
}

/// One more conflict than before.
pub open spec fn one_more(count: CountPair) -> CountPair {
    CountPair {
        planned: if count.planned < usize::MAX {
            (count.planned + 1) as usize
        } else {
            usize::MAX
        },
        applied: count.applied,
    }
}

/// Nothing planned.
pub open spec fn none_planned(count: CountPair) -> CountPair {
    CountPair { planned: 0, applied: count.applied }
}

fn add_conflict(plan: &mut SyncPlan, code: &str, message: String)
    ensures
        final(plan).status == PlanStatus::Conflict,
        final(plan).plan_revision == old(plan).plan_revision,
        final(plan).changes@.len() == 0,
        diagnostic_views(final(plan).diagnostics@) == diagnostic_views(
            old(plan).diagnostics@,
        ).push(DiagnosticView { code: code@, message: message@, reference: None }),
        final(plan).counts.added == old(plan).counts.added,
        final(plan).counts.updated == old(plan).counts.updated,
        final(plan).counts.pads_reassigned == old(plan).counts.pads_reassigned,
        final(plan).counts.board_only_preserved == old(plan).counts.board_only_preserved,
        final(plan).counts.skipped_by_flag == old(plan).counts.skipped_by_flag,
        final(plan).counts.conflicts == one_more(old(plan).counts.conflicts),
{
    let ghost before = plan.diagnostics@;
    let diagnostic = conflict(code, message, None);
    plan.status = PlanStatus::Conflict;
    plan.counts.conflicts.planned = plan.counts.conflicts.planned.saturating_add(1);
    plan.diagnostics.push(diagnostic);
    plan.changes.clear();
    assert(diagnostic_views(plan.diagnostics@) =~= diagnostic_views(before).push(diagnostic@));
}

/// Turns a plan into a conflict because a footprint that it adds could not be
/// prepared. No change and no planned count is left.
pub fn refuse_preparation(plan: &mut SyncPlan, message: String)
    ensures
        final(plan).status == PlanStatus::Conflict,
        final(plan).plan_revision == old(plan).plan_revision,
        final(plan).changes@.len() == 0,
        diagnostic_views(final(plan).diagnostics@) == diagnostic_views(
            old(plan).diagnostics@,
        ).push(
            DiagnosticView {
                code: "footprint_library_resolution_failed"@,
                message: message@,
                reference: None,
            },
        ),
        final(plan).counts.added == none_planned(old(plan).counts.added),
        final(plan).counts.updated == none_planned(old(plan).counts.updated),
        final(plan).counts.pads_reassigned == none_planned(old(plan).counts.pads_reassigned),
        final(plan).counts.board_only_preserved == old(plan).counts.board_only_preserved,
        final(plan).counts.skipped_by_flag == old(plan).counts.skipped_by_flag,
        final(plan).counts.conflicts == one_more(old(plan).counts.conflicts),
{
    plan.counts.added.planned = 0;
    plan.counts.updated.planned = 0;
    plan.counts.pads_reassigned.planned = 0;
    add_conflict(plan, "footprint_library_resolution_failed", message);
}

/// What to do with a plan.
#[derive(Clone, Copy, PartialEq, Eq, Debug, Structural)]
pub enum SyncStep {
    /// Report it with its status and change nothing.
    Report,
    /// Apply it.
    Apply,
}

/// The caller asked to apply exactly this revision.
pub open spec fn revision_matches(expected: Option<String>, plan: SyncPlan) -> bool {
    opt_text(expected) == Some(plan.plan_revision@)
}

/// Decides what to do with a plan. Only a plan that is ready and has the
/// revision that the caller reviewed is applied; one with another revision
/// becomes a conflict.
pub fn decide_apply(plan: &mut SyncPlan, dry_run: bool, expected: &Option<String>) -> (res: SyncStep)
    ensures
        res == SyncStep::Apply <==> !dry_run && old(plan).status == PlanStatus::Ready
            && revision_matches(*expected, *old(plan)),
        (dry_run || old(plan).status == PlanStatus::Conflict || revision_matches(
            *expected,
            *old(plan),
        )) ==> *final(plan) == *old(plan),
        !(dry_run || old(plan).status == PlanStatus::Conflict || revision_matches(
            *expected,
            *old(plan),
        )) ==> {
            &&& final(plan).status == PlanStatus::Conflict
            &&& final(plan).plan_revision == old(plan).plan_revision
            &&& final(plan).changes@.len() == 0
            &&& diagnostic_views(final(plan).diagnostics@) == diagnostic_views(
                old(plan).diagnostics@,
            ).push(
                DiagnosticView {
                    code: "stale_plan_revision"@,
                    message:
                        "The live board or saved schematic changed; rerun dry run and apply its new plan revision."@,
                    reference: None,
                },
            )
            &&& final(plan).counts.added == old(plan).counts.added
            &&& final(plan).counts.updated == old(plan).counts.updated
            &&& final(plan).counts.pads_reassigned == old(plan).counts.pads_reassigned
            &&& final(plan).counts.board_only_preserved == old(plan).counts.board_only_preserved
            &&& final(plan).counts.skipped_by_flag == old(plan).counts.skipped_by_flag
            &&& final(plan).counts.conflicts == one_more(old(plan).counts.conflicts)
        },
{
    if dry_run || plan.status == PlanStatus::Conflict {
        return SyncStep::Report;
    }
    let same: bool = match expected {
        Some(revision) => *revision == plan.plan_revision,
        None => false,
    };
    if !same {
        add_conflict(
            plan,
            "stale_plan_revision",
            owned(
                "The live board or saved schematic changed; rerun dry run and apply its new plan revision.",
            ),
        );
        return SyncStep::Report;
    }
    if plan.status == PlanStatus::Noop {
        return SyncStep::Report;
    }
    SyncStep::Apply
}

/// Whether a request may go on: applying needs the revision of a dry run.
pub fn request_names_revision(dry_run: bool, expected: &Option<String>) -> (res: bool)
    ensures
        res == (dry_run || expected is Some),
{
    dry_run || expected.is_some()
}

/// The status that a report carries.
pub fn status_text(status: PlanStatus) -> (res: String)
    ensures
        res@ == match status {
            PlanStatus::Ready => "ready"@,
            PlanStatus::Noop => "noop"@,
            PlanStatus::Conflict => "conflict"@,
        },
{
    match status {
        PlanStatus::Ready => owned("ready"),
        PlanStatus::Noop => owned("noop"),
        PlanStatus::Conflict => owned("conflict"),
    }
}

/// The report of a difference that was found after the plan was applied.
pub open spec fn difference_view(detail: Seq<char>) -> DiagnosticView {
    DiagnosticView {
        code: "board_readback_differs"@,
        message: "the board KiCad wrote differs from what was sent — "@ + detail
            + ". No pad was invented, so this is reported rather than refused; check the footprint before relying on it."@,
        reference: None,
    }
}

/// All that was planned has been applied.
pub open spec fn all_applied(count: CountPair) -> CountPair {
    CountPair { planned: count.planned, applied: count.planned }
}

/// Records that a plan was applied, with the differences that were found when
/// the board was read back.
pub fn record_applied(plan: &mut SyncPlan, differences: &Vec<String>)
    ensures
        diagnostic_views(final(plan).diagnostics@) == diagnostic_views(old(plan).diagnostics@)
            + Seq::new(differences@.len(), |i: int| difference_view(differences@[i]@)),
        final(plan).status == old(plan).status,
        final(plan).plan_revision == old(plan).plan_revision,
        final(plan).changes == old(plan).changes,
        final(plan).counts.added == all_applied(old(plan).counts.added),
        final(plan).counts.updated == all_applied(old(plan).counts.updated),
        final(plan).counts.pads_reassigned == all_applied(old(plan).counts.pads_reassigned),
        final(plan).counts.board_only_preserved == all_applied(
            old(plan).counts.board_only_preserved,
        ),
        final(plan).counts.skipped_by_flag == all_applied(old(plan).counts.skipped_by_flag),
        final(plan).counts.conflicts == old(plan).counts.conflicts,
{
    let ghost start = diagnostic_views(plan.diagnostics@);
    let ghost all = Seq::new(differences@.len(), |i: int| difference_view(differences@[i]@));
    let mut i: usize = 0;
    assert(start + all.take(0) =~= start);
    while i < differences.len()
        invariant
            i <= differences@.len(),
            all == Seq::new(differences@.len(), |i: int| difference_view(differences@[i]@)),
            diagnostic_views(plan.diagnostics@) == start + all.take(i as int),
            plan.status == old(plan).status,
            plan.plan_revision == old(plan).plan_revision,
            plan.changes == old(plan).changes,
            plan.counts == old(plan).counts,
        decreases differences@.len() - i,
    {
        let ghost before = diagnostic_views(plan.diagnostics@);
        let diagnostic = conflict(
            "board_readback_differs",
            concat3(
                "the board KiCad wrote differs from what was sent — ",
                differences[i].as_str(),
                ". No pad was invented, so this is reported rather than refused; check the footprint before relying on it.",
            ),
            None,
        );
        plan.diagnostics.push(diagnostic);
        proof {
            assert(diagnostic_views(plan.diagnostics@) =~= before.push(diagnostic@));
            assert(start + all.take(i + 1) =~= (start + all.take(i as int)).push(all[i as int]));
        }
        i += 1;
    }
    assert(all.take(i as int) =~= all);
    plan.counts.added.applied = plan.counts.added.planned;
    plan.counts.updated.applied = plan.counts.updated.planned;
    plan.counts.pads_reassigned.applied = plan.counts.pads_reassigned.planned;
    plan.counts.board_only_preserved.applied = plan.counts.board_only_preserved.planned;
    plan.counts.skipped_by_flag.applied = plan.counts.skipped_by_flag.planned;
}

/// Writes a planned update into the live item that it is about.
pub fn update_footprint_item(
    item: FootprintItem,
    change: &PlannedChange,
    net_codes: &TextMap<i32>,
) -> (res: Result<FootprintItem, FootprintError>)
    ensures
        match change {
            PlannedChange::Add { .. } => res matches Err(FootprintError::NotAnUpdate),
            PlannedChange::Update { kiid, reference, value, symbol_path, dnp, pad_nets, .. } =>
                if opt_text(item.id) != Some(kiid@) {
                    res matches Err(FootprintError::Stale { kiid: named }) && named@ == kiid@
                } else {
                    fields_outcome(
                        item,
                        res,
                        reference@,
                        value@,
                        symbol_path@,
                        *dnp,
                        *pad_nets,
                        net_codes@,
                    )
                },
        },
{
    match change {
        PlannedChange::Add { .. } => Err(FootprintError::NotAnUpdate),
        PlannedChange::Update { kiid, reference, value, symbol_path, dnp, pad_nets, .. } => {
            let same: bool = match &item.id {
                Some(id) => *id == *kiid,
                None => false,
            };
            if !same {
                return Err(FootprintError::Stale { kiid: kiid.clone() });
            }
            apply_footprint_fields(
                item,
                reference.as_str(),
                value.as_str(),
                symbol_path.as_str(),
                *dnp,
                pad_nets,
                net_codes,
            )
        },
    }
}

/// How many pads and how many drawn items a footprint has.
#[derive(Clone, Copy, PartialEq, Eq, Debug, Structural)]
pub struct FootprintShape {
    pub pads: usize,
    pub drawings: usize,
}

/// The declared type is that of a drawing.
pub open spec fn declares_drawing(declared: Seq<char>) -> bool {
    declared == "kiapi.board.types.BoardGraphicShape"@ || declared
        == "kiapi.board.types.BoardText"@
}

/// How many of these items are pads.
pub open spec fn pad_count(items: Seq<FootprintChild>) -> nat
    decreases items.len(),
{
    if items.len() == 0 {
        0
    } else {
        pad_count(items.drop_last()) + match items.last() {
            FootprintChild::Pad { .. } => 1nat,
            FootprintChild::UnreadablePad { .. } => 1,
            FootprintChild::Other { .. } => 0,
        }
    }
}

/// How many of these items are drawn.
pub open spec fn drawing_count(items: Seq<FootprintChild>) -> nat
    decreases items.len(),
{
    if items.len() == 0 {
        0
    } else {
        drawing_count(items.drop_last()) + match items.last() {
            FootprintChild::Other { declared, .. } => if declares_drawing(declared@) {
                1nat
            } else {
                0
            },
            _ => 0,
        }
    }
}

/// Whether a footprint is tallied: it has a definition and a reference.
pub open spec fn tallied(item: FootprintItem) -> bool {
    item.definition is Some && text_of_field(item.reference_field).len() > 0
}

/// The shape of a footprint.
pub open spec fn shape_of(item: FootprintItem) -> FootprintShape {
    FootprintShape {
        pads: pad_count(item.definition->0.items@) as usize,
        drawings: drawing_count(item.definition->0.items@) as usize,
    }
}

/// The shapes of the first `n` footprints by reference.
pub open spec fn shapes_of(items: Seq<FootprintItem>, n: nat) -> Map<Seq<char>, FootprintShape>
    decreases n,
{
    if n == 0 {
        Map::empty()
    } else {
        let rest = shapes_of(items, (n - 1) as nat);
        if tallied(items[n - 1]) {
            rest.insert(text_of_field(items[n - 1].reference_field), shape_of(items[n - 1]))
        } else {
            rest
        }
    }
}

fn count_children(items: &Vec<FootprintChild>) -> (res: FootprintShape)
    ensures
        res.pads == pad_count(items@),
        res.drawings == drawing_count(items@),
{
    let mut pads: usize = 0;
    let mut drawings: usize = 0;
    let mut i: usize = 0;
    assert(items@.take(0) =~= Seq::empty());
    while i < items.len()
        invariant
            i <= items@.len(),
            pads <= i,
            drawings <= i,
            pads == pad_count(items@.take(i as int)),
            drawings == drawing_count(items@.take(i as int)),
        decreases items@.len() - i,
    {
        proof {
            assert(items@.take(i + 1).drop_last() =~= items@.take(i as int));
            assert(items@.take(i + 1).last() == items@[i as int]);
        }
        match &items[i] {
            FootprintChild::Pad { .. } => {
                pads += 1;
            },
            FootprintChild::UnreadablePad { .. } => {
                pads += 1;
            },
            FootprintChild::Other { declared, .. } => {
                if text_eq(declared.as_str(), "kiapi.board.types.BoardGraphicShape") || text_eq(
                    declared.as_str(),
                    "kiapi.board.types.BoardText",
                ) {
                    drawings += 1;
                }
            },
        }
        i += 1;
    }
    assert(items@.take(i as int) =~= items@);
    FootprintShape { pads, drawings }
}

/// Tallies the pads and drawings of each footprint, by reference.
pub fn footprint_shapes(items: &Vec<FootprintItem>) -> (res: TextMap<FootprintShape>)
    ensures
        res@ == shapes_of(items@, items@.len()),
{
    let mut shapes: TextMap<FootprintShape> = TextMap::new();
    let mut i: usize = 0;
    while i < items.len()
        invariant
            i <= items@.len(),
            shapes@ == shapes_of(items@, i as nat),
        decreases items@.len() - i,
    {
        let item = &items[i];
        if let Some(definition) = &item.definition {
            let reference = field_text(&item.reference_field);
            let empty = String::new();
            assert(reference@.len() == 0 ==> reference@ =~= empty@);
            if reference != empty {
                let shape = count_children(&definition.items);
                shapes.insert(reference, shape);
            }
        }
        i += 1;
    }
    shapes
}

/// What is said of a footprint whose shape is not the one that was sent.
pub open spec fn shape_detail(
    reference: Seq<char>,
    sent: FootprintShape,
    found: FootprintShape,
) -> Seq<char> {
    reference + ": sent "@ + number_text(sent.pads as nat) + " pads and "@ + number_text(
        sent.drawings as nat,
    ) + " drawings, board now has "@ + number_text(found.pads as nat) + " and "@ + number_text(
        found.drawings as nat,
    )
}

/// How a footprint on the board compares with what was sent.
pub enum Comparison {
    Same,
    GainedPads,
    Differs,
}

/// Compares one footprint. One that the board does not show is not compared.
pub open spec fn comparison(
    reference: Seq<char>,
    sent: FootprintShape,
    actual: Map<Seq<char>, FootprintShape>,
) -> Comparison {
    if !actual.contains_key(reference) {
        Comparison::Same
    } else if actual[reference].pads > sent.pads {
        Comparison::GainedPads
    } else if actual[reference] != sent {
        Comparison::Differs
    } else {
        Comparison::Same
    }
}

/// The details of those of the first `n` footprints that gained pads, or of
/// those that differ otherwise.
pub open spec fn details(
    expected: TextMap<FootprintShape>,
    actual: Map<Seq<char>, FootprintShape>,
    gained: bool,
    n: nat,
) -> Seq<Seq<char>>
    decreases n,
{
    if n == 0 {
        Seq::empty()
    } else {
        let rest = details(expected, actual, gained, (n - 1) as nat);
        let reference = expected.keys()[n - 1];
        let sent = expected.values()[n - 1];
        let compared = comparison(reference, sent, actual);
        if (gained && compared is GainedPads) || (!gained && compared is Differs) {
            rest.push(shape_detail(reference, sent, actual[reference]))
        } else {
            rest
        }
    }
}

fn write_detail(reference: &str, sent: FootprintShape, found: FootprintShape) -> (res: String)
    ensures
        res@ == shape_detail(reference@, sent, found),
{
    let mut text = concat5(
        reference,
        ": sent ",
        write_number(sent.pads).as_str(),
        " pads and ",
        write_number(sent.drawings).as_str(),
    );
    text.append(" drawings, board now has ");
    text.append(write_number(found.pads).as_str());
    text.append(" and ");
    text.append(write_number(found.drawings).as_str());
    text
}

/// Holds the board to what was sent.
///
/// A pad that was never sent is an error. Any other difference is returned to
/// be reported, since KiCad may have a benign reason for it.
pub fn verify_board_matches_what_was_sent(
    expected: &TextMap<FootprintShape>,
    actual: &TextMap<FootprintShape>,
) -> (res: Result<Vec<String>, String>)
    ensures
        ({
            let gained = details(*expected, actual@, true, expected.keys().len());
            match res {
                Ok(suspicious) => gained.len() == 0 && texts(suspicious@) == details(
                    *expected,
                    actual@,
                    false,
                    expected.keys().len(),
                ),
                Err(message) => gained.len() > 0 && message@
                    == "KiCad's board gained pads this sync never sent, so the footprints on it are not the ones that were planned — inspect the board and do not save it: "@
                    + joined(gained, "; "@),
            }
        }),
{
    let mut corrupted: Vec<String> = Vec::new();
    let mut suspicious: Vec<String> = Vec::new();
    let count: usize = expected.len();
    let mut i: usize = 0;
    assert(texts(corrupted@) =~= details(*expected, actual@, true, 0));
    assert(texts(suspicious@) =~= details(*expected, actual@, false, 0));
    while i < count
        invariant
            i <= count,
            count == expected.keys().len(),
            texts(corrupted@) == details(*expected, actual@, true, i as nat),
            texts(suspicious@) == details(*expected, actual@, false, i as nat),
        decreases count - i,
    {
        let reference = expected.key_at(i);
        let want = *expected.value_at(i);
        let ghost before = (corrupted@, suspicious@);
        if let Some(found) = actual.get(reference.as_str()) {
            let got = *found;
            if got.pads > want.pads {
                let detail = write_detail(reference.as_str(), want, got);
                corrupted.push(detail);
                assert(texts(corrupted@) =~= texts(before.0).push(detail@));
            } else if got.pads != want.pads || got.drawings != want.drawings {
                let detail = write_detail(reference.as_str(), want, got);
                suspicious.push(detail);
                assert(texts(suspicious@) =~= texts(before.1).push(detail@));
            }
        }
        i += 1;
    }
    assert(texts(corrupted@).len() == corrupted@.len());
    if corrupted.len() > 0 {
        return Err(
            concat2(
                "KiCad's board gained pads this sync never sent, so the footprints on it are not the ones that were planned — inspect the board and do not save it: ",
                join(&corrupted, "; ").as_str(),
            ),
        );
    }
    Ok(suspicious)
}

proof fn lemma_children_keep_counts(
    before: Seq<FootprintChild>,
    after: Seq<FootprintChild>,
    pad_nets: Map<Seq<char>, String>,
    net_codes: Map<Seq<char>, i32>,
)
    requires
        before.len() == after.len(),
        forall|i: int|
            0 <= i < before.len() ==> child_updated(
                #[trigger] before[i],
                after[i],
                pad_nets,
                net_codes,
            ),
    ensures
        pad_count(after) == pad_count(before),
        drawing_count(after) == drawing_count(before),
    decreases before.len(),
{
    if before.len() > 0 {
        let (x, y) = (before.drop_last(), after.drop_last());
        assert forall|i: int| 0 <= i < x.len() implies child_updated(
            #[trigger] x[i],
            y[i],
            pad_nets,
            net_codes,
        ) by {
            assert(x[i] == before[i] && y[i] == after[i]);
        }
        lemma_children_keep_counts(x, y, pad_nets, net_codes);
        assert(child_updated(
            before[before.len() - 1],
            after[after.len() - 1],
            pad_nets,
            net_codes,
        ));
    }
}

/// Writing a plan into a footprint keeps its shape: no drawing becomes a pad
/// and none is lost.
pub proof fn law_applying_keeps_the_shape(
    before: FootprintItem,
    after: FootprintItem,
    reference: Seq<char>,
    value: Seq<char>,
    symbol_path: Seq<char>,
    dnp: bool,
    pad_nets: Map<Seq<char>, String>,
    net_codes: Map<Seq<char>, i32>,
)
    requires
        fields_applied(
            before,
            after,
            reference,
            value,
            symbol_path,
            dnp,
            pad_nets,
            net_codes,
        ),
    ensures
        shape_of(after) == shape_of(before),
{
    lemma_children_keep_counts(
        before.definition->0.items@,
        after.definition->0.items@,
        pad_nets,
        net_codes,
    );
}

/// A board that shows what was sent passes the check with nothing to report.
pub proof fn law_an_unchanged_board_passes(
    expected: TextMap<FootprintShape>,
    gained: bool,
    n: nat,
)
    requires
        expected.ordered(),
        n <= expected.keys().len(),
    ensures
        details(expected, expected@, gained, n).len() == 0,
    decreases n,
{
    if n > 0 {
        law_an_unchanged_board_passes(expected, gained, (n - 1) as nat);
        crate::text_map::lemma_at(expected, n - 1);
    }
}

/// The counts with one more for this net.
pub open spec fn counted(routed: Map<Seq<char>, usize>, net: Seq<char>) -> Map<Seq<char>, usize> {
    routed.insert(
        net,
        if !routed.contains_key(net) {
            1
        } else if routed[net] < usize::MAX {
            (routed[net] + 1) as usize
        } else {
            usize::MAX
        },
    )
}

fn count_net(routed: &mut TextMap<usize>, net: &String)
    ensures
        final(routed)@ == counted(old(routed)@, net@),
{
    let count: usize = match routed.get(net.as_str()) {
        Some(count) => count.saturating_add(1),
        None => 1,
    };
    routed.insert(net.clone(), count);
}

/// Counts one routed copper object; one without a named net counts nothing.
pub fn record_routed_net(routed: &mut TextMap<usize>, net: &Option<String>)
    ensures
        final(routed)@ == match net {
            Some(name) if name@.len() > 0 => counted(old(routed)@, name@),
            _ => old(routed)@,
        },
{
    if let Some(name) = net {
        let empty = String::new();
        assert(name@.len() == 0 ==> name@ =~= empty@);
        if *name != empty {
            count_net(routed, name);
        }
    }
}

/// The counts after these copper objects.
pub open spec fn objects_counted(nets: Seq<Option<String>>) -> Map<Seq<char>, usize>
    decreases nets.len(),
{
    if nets.len() == 0 {
        Map::empty()
    } else {
        let rest = objects_counted(nets.drop_last());
        match nets.last() {
            Some(name) if name@.len() > 0 => counted(rest, name@),
            _ => rest,
        }
    }
}

/// The counts after a zone that may be on any of these nets.
pub open spec fn zones_counted(
    start: Map<Seq<char>, usize>,
    nets: Seq<Seq<char>>,
) -> Map<Seq<char>, usize>
    decreases nets.len(),
{
    if nets.len() == 0 {
        start
    } else {
        counted(zones_counted(start, nets.drop_last()), nets.last())
    }
}

/// Counts the routed copper of each net. The net of a zone is not known, so on
/// a board with zones every net counts as routed.
pub fn count_routed_nets(
    nets: &Vec<Option<String>>,
    has_zones: bool,
    net_codes: &TextMap<i32>,
) -> (res: TextMap<usize>)
    ensures
        res@ == (if has_zones {
            zones_counted(objects_counted(nets@), net_codes.keys())
        } else {
            objects_counted(nets@)
        }),
{
    let mut routed: TextMap<usize> = TextMap::new();
    let mut i: usize = 0;
    assert(nets@.take(0) =~= Seq::empty());
    while i < nets.len()
        invariant
            i <= nets@.len(),
            routed@ == objects_counted(nets@.take(i as int)),
        decreases nets@.len() - i,
    {
        proof {
            assert(nets@.take(i + 1).drop_last() =~= nets@.take(i as int));
            assert(nets@.take(i + 1).last() == nets@[i as int]);
        }
        record_routed_net(&mut routed, &nets[i]);
        i += 1;
    }
    assert(nets@.take(i as int) =~= nets@);
    if has_zones {
        let ghost start = routed@;
        let count: usize = net_codes.len();
        let mut k: usize = 0;
        assert(net_codes.keys().take(0) =~= Seq::empty());
        while k < count
            invariant
                k <= count,
                count == net_codes.keys().len(),
                routed@ == zones_counted(start, net_codes.keys().take(k as int)),
            decreases count - k,
        {
            proof {
                let keys = net_codes.keys();
                assert(keys.take(k + 1).drop_last() =~= keys.take(k as int));
                assert(keys.take(k + 1).last() == keys[k as int]);
            }
            count_net(&mut routed, net_codes.key_at(k));
            k += 1;
        }
        assert(net_codes.keys().take(k as int) =~= net_codes.keys());
    }
    routed
}

/// A pad reassignment on a board with zones fails closed: every net of the
/// board counts as routed.
pub proof fn law_zones_route_every_net(
    start: Map<Seq<char>, usize>,
    nets: Seq<Seq<char>>,
    net: Seq<char>,
)
    requires
        nets.contains(net),
    ensures
        zones_counted(start, nets).contains_key(net),
    decreases nets.len(),
{
    if nets.last() != net {
        let i = nets.index_of(net);
        assert(nets.drop_last()[i] == net);
        law_zones_route_every_net(start, nets.drop_last(), net);
    }
}

/// What has to be sent for a plan: the positions of the additions and of the
/// updates among its changes.
#[derive(PartialEq, Eq, Debug)]
pub struct MutationItems {
    pub creates: Vec<usize>,
    pub updates: Vec<usize>,
}

/// Why a plan cannot be sent.
#[derive(PartialEq, Eq, Debug)]
pub enum MutationError {
    NotPrepared { footprint_id: String },
    Disappeared { kiid: String },
}

impl MutationError {
    /// The message of the error.
    pub fn message(&self) -> (res: String)
        ensures
            res@ == match self {
                MutationError::NotPrepared { footprint_id } => "no prepared footprint for "@
                    + footprint_id@,
                MutationError::Disappeared { kiid } => "planned footprint "@ + kiid@
                    + " disappeared"@,
            },
    {
        match self {
            MutationError::NotPrepared { footprint_id } => concat2(
                "no prepared footprint for ",
                footprint_id.as_str(),
            ),
            MutationError::Disappeared { kiid } => concat3(
                "planned footprint ",
                kiid.as_str(),
                " disappeared",
            ),
        }
    }
}

/// What the change needs is at hand: the prepared footprint of an addition, or
/// the live item of an update.
pub open spec fn at_hand(
    change: PlannedChange,
    prepared: Map<Seq<char>, Extent>,
    live: Seq<Seq<char>>,
) -> bool {
    match change {
        PlannedChange::Add { footprint_id, .. } => prepared.contains_key(footprint_id@),
        PlannedChange::Update { kiid, .. } => live.contains(kiid@),
    }
}

/// The positions of the additions, or of the updates, among the first `n`
/// changes.
pub open spec fn positions(changes: Seq<PlannedChange>, adds: bool, n: nat) -> Seq<int>
    decreases n,
{
    if n == 0 {
        Seq::empty()
    } else {
        let rest = positions(changes, adds, (n - 1) as nat);
        if changes[n - 1] is Add == adds {
            rest.push(n - 1)
        } else {
            rest
        }
    }
}

/// Sorts the changes of a plan into additions and updates. The first change
/// whose footprint is not prepared, or whose live item is gone, is an error.
pub fn build_mutation_items(
    changes: &Vec<PlannedChange>,
    prepared: &TextMap<Extent>,
    live: &Vec<String>,
) -> (res: Result<MutationItems, MutationError>)
    ensures
        match res {
            Ok(items) => (forall|i: int|
                0 <= i < changes@.len() ==> at_hand(
                    #[trigger] changes@[i],
                    prepared@,
                    texts(live@),
                )) && ints(items.creates@) == positions(changes@, true, changes@.len())
                && ints(items.updates@) == positions(changes@, false, changes@.len()),
            Err(error) => exists|i: int|
                0 <= i < changes@.len() && !at_hand(
                    #[trigger] changes@[i],
                    prepared@,
                    texts(live@),
                ) && (forall|j: int|
                    0 <= j < i ==> at_hand(#[trigger] changes@[j], prepared@, texts(live@)))
                    && match error {
                    MutationError::NotPrepared { footprint_id } => changes@[i] is Add
                        && changes@[i]->footprint_id@ == footprint_id@,
                    MutationError::Disappeared { kiid } => changes@[i] is Update
                        && changes@[i]->kiid@ == kiid@,
                },
        },
{
    let mut creates: Vec<usize> = Vec::new();
    let mut updates: Vec<usize> = Vec::new();
    let mut i: usize = 0;
    assert(ints(creates@) =~= positions(changes@, true, 0));
    assert(ints(updates@) =~= positions(changes@, false, 0));
    while i < changes.len()
        invariant
            i <= changes@.len(),
            forall|j: int|
                0 <= j < i ==> at_hand(#[trigger] changes@[j], prepared@, texts(live@)),
            ints(creates@) == positions(changes@, true, i as nat),
            ints(updates@) == positions(changes@, false, i as nat),
        decreases changes@.len() - i,
    {
        let ghost before = (creates@, updates@);
        match &changes[i] {
            PlannedChange::Add { footprint_id, .. } => {
                if !prepared.contains_key(footprint_id.as_str()) {
                    assert(!at_hand(changes@[i as int], prepared@, texts(live@)));
                    return Err(MutationError::NotPrepared { footprint_id: footprint_id.clone() });
                }
                creates.push(i);
                assert(ints(creates@) =~= ints(before.0).push(i as int));
            },
            PlannedChange::Update { kiid, .. } => {
                if !crate::text::contains_text(live, kiid.as_str()) {
                    assert(!at_hand(changes@[i as int], prepared@, texts(live@)));
                    return Err(MutationError::Disappeared { kiid: kiid.clone() });
                }
                updates.push(i);
                assert(ints(updates@) =~= ints(before.1).push(i as int));
            },
        }
        i += 1;
    }
    Ok(MutationItems { creates, updates })
}

} // verus!
