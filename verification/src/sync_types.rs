//! What a schematic export asks for, what a board holds, and the plan that
//! leads from one to the other.
//!
//! Lengths are whole nanometres and angles whole millionths of a degree.

use crate::text::opt_text;
use crate::text_map::TextMap;
use vstd::prelude::*;

verus! {

/// What a schematic export asks the board to hold.
#[derive(PartialEq, Eq, Debug)]
pub struct ExportedDesign {
    pub components: Vec<DesignComponent>,
    pub skipped: Vec<SkippedComponent>,
}

/// A symbol that its `on_board` flag keeps off the board.
#[derive(PartialEq, Eq, Debug)]
pub struct SkippedComponent {
    pub reference: String,
    pub symbol_path: String,
}

/// A symbol that belongs on the board, with the net of each of its pads.
#[derive(PartialEq, Eq, Debug)]
pub struct DesignComponent {
    pub reference: String,
    pub value: String,
    pub footprint_id: String,
    pub symbol_path: String,
    pub dnp: bool,
    pub pad_nets: TextMap<String>,
}

/// A place on the board, in nanometres.
#[derive(Clone, Copy, PartialEq, Eq, Debug, Structural)]
pub struct Point {
    pub x: i64,
    pub y: i64,
}

/// The rectangle around everything on the board, in nanometres.
#[derive(Clone, Copy, PartialEq, Eq, Debug, Structural)]
pub struct Bounds {
    pub min_x: i64,
    pub min_y: i64,
    pub max_x: i64,
    pub max_y: i64,
}

/// A footprint as the board holds it.
#[derive(PartialEq, Eq, Debug)]
pub struct BoardFootprint {
    pub kiid: String,
    pub reference: String,
    pub value: String,
    pub footprint_id: String,
    pub symbol_path: Option<String>,
    pub pad_nets: TextMap<String>,
    pub position: Point,
    pub rotation: i64,
    pub layer: String,
    pub locked: bool,
    pub dnp: bool,
    pub not_in_schematic: bool,
}

/// The state of a board that planning reads.
#[derive(PartialEq, Eq, Debug)]
pub struct BoardState {
    pub footprints: Vec<BoardFootprint>,
    /// Net name to the number of routed copper objects (tracks, arcs, vias and
    /// zones) that carry the net.
    pub routed_nets: TextMap<usize>,
    pub bounds: Bounds,
}

/// Whether a plan can be applied.
#[derive(Clone, Copy, PartialEq, Eq, Debug, Structural)]
pub enum PlanStatus {
    Ready,
    Noop,
    Conflict,
}

/// How many things were planned and how many of them were carried out.
#[derive(Clone, Copy, PartialEq, Eq, Debug, Structural)]
pub struct CountPair {
    pub planned: usize,
    pub applied: usize,
}

/// The counts that a plan reports.
#[derive(Clone, Copy, PartialEq, Eq, Debug, Structural)]
pub struct SyncCounts {
    pub added: CountPair,
    pub updated: CountPair,
    pub pads_reassigned: CountPair,
    pub board_only_preserved: CountPair,
    pub skipped_by_flag: CountPair,
    pub conflicts: CountPair,
}

/// What an update leaves as the board has it.
#[derive(PartialEq, Eq, Debug)]
pub struct PreservedBoardState {
    pub position: Point,
    pub rotation: i64,
    pub layer: String,
    pub locked: bool,
}

/// One change that a plan makes to the board.
#[derive(PartialEq, Eq, Debug)]
pub enum PlannedChange {
    Add {
        reference: String,
        value: String,
        footprint_id: String,
        symbol_path: String,
        dnp: bool,
        pad_nets: TextMap<String>,
        position: Point,
    },
    Update {
        kiid: String,
        reference: String,
        value: String,
        symbol_path: String,
        dnp: bool,
        pad_nets: TextMap<String>,
        preserve: PreservedBoardState,
    },
}

/// Why a plan cannot be applied.
#[derive(PartialEq, Eq, Debug)]
pub struct SyncDiagnostic {
    pub code: String,
    pub message: String,
    pub reference: Option<String>,
}

/// A complete plan: nothing is applied unless all of it is.
#[derive(PartialEq, Eq, Debug)]
pub struct SyncPlan {
    pub status: PlanStatus,
    pub plan_revision: String,
    pub counts: SyncCounts,
    pub changes: Vec<PlannedChange>,
    pub diagnostics: Vec<SyncDiagnostic>,
}

/// The content of a [`SyncDiagnostic`].
pub struct DiagnosticView {
    pub code: Seq<char>,
    pub message: Seq<char>,
    pub reference: Option<Seq<char>>,
}

impl View for SyncDiagnostic {
    type V = DiagnosticView;

    open spec fn view(&self) -> DiagnosticView {
        DiagnosticView {
            code: self.code@,
            message: self.message@,
            reference: opt_text(self.reference),
        }
    }
}

/// The content of a [`PreservedBoardState`].
pub struct PreservedView {
    pub position: Point,
    pub rotation: i64,
    pub layer: Seq<char>,
    pub locked: bool,
}

/// The content of a [`PlannedChange`].
pub enum ChangeView {
    Add {
        reference: Seq<char>,
        value: Seq<char>,
        footprint_id: Seq<char>,
        symbol_path: Seq<char>,
        dnp: bool,
        pad_nets: Map<Seq<char>, String>,
        position: Point,
    },
    Update {
        kiid: Seq<char>,
        reference: Seq<char>,
        value: Seq<char>,
        symbol_path: Seq<char>,
        dnp: bool,
        pad_nets: Map<Seq<char>, String>,
        preserve: PreservedView,
    },
}

impl View for PlannedChange {
    type V = ChangeView;

    open spec fn view(&self) -> ChangeView {
        match self {
            PlannedChange::Add {
                reference,
                value,
                footprint_id,
                symbol_path,
                dnp,
                pad_nets,
                position,
            } => ChangeView::Add {
                reference: reference@,
                value: value@,
                footprint_id: footprint_id@,
                symbol_path: symbol_path@,
                dnp: *dnp,
                pad_nets: pad_nets@,
                position: *position,
            },
            PlannedChange::Update {
                kiid,
                reference,
                value,
                symbol_path,
                dnp,
                pad_nets,
                preserve,
            } => ChangeView::Update {
                kiid: kiid@,
                reference: reference@,
                value: value@,
                symbol_path: symbol_path@,
                dnp: *dnp,
                pad_nets: pad_nets@,
                preserve: PreservedView {
                    position: preserve.position,
                    rotation: preserve.rotation,
                    layer: preserve.layer@,
                    locked: preserve.locked,
                },
            },
        }
    }
}

/// The contents of a list of diagnostics.
pub open spec fn diagnostic_views(list: Seq<SyncDiagnostic>) -> Seq<DiagnosticView> {
    Seq::new(list.len(), |i: int| list[i]@)
}

/// The contents of a list of changes.
pub open spec fn change_views(list: Seq<PlannedChange>) -> Seq<ChangeView> {
    Seq::new(list.len(), |i: int| list[i]@)
}

} // verus!
