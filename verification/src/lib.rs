//! The logic behind tools that work on KiCad schematics and boards.
//!
//! Nothing here reads a file or talks to KiCad. The functions take what was
//! read as plain values and return what is to be written, what is to be refused
//! and what is to be reported. Lengths are whole nanometres and angles are
//! millionths of a degree.
//!
//! - Texts, numbers and trees: [`text`], [`text_map`], [`chars`], [`decimal`],
//!   [`scan`], [`lists`], [`sexp`].
//! - Updating a board from its schematic: [`netlist`], [`symbol_flags`] and
//!   [`hierarchy`] read the design, with what holds of every hierarchy in
//!   [`hierarchy_laws`]. [`footprint_item`] and [`dimensions`] read the board.
//!   [`sync_types`], [`sync_plan`] and [`planner`] plan the update,
//!   [`identity`] and [`revision`] give the plan its revision, [`sync_apply`]
//!   applies it, and [`sync_laws`] states what holds of every plan.
//! - What is connected on a sheet: [`geometry`], [`point_index`],
//!   [`wire_index`], [`links`], [`net_graph`] and [`connectivity`], with the
//!   questions in [`sheet_reports`], [`single_pin`], [`net_queries`], [`connected`]
//!   and [`overlaps`].
//! - Changing the components of a sheet: [`symbol`], [`target`], [`readback`]
//!   and [`intent`] bind a change and hold the file to it. [`placement`],
//!   [`property_text`], [`property_edit`], [`property_laws`], [`field_placement`],
//!   [`placement_laws`], [`field_reset`], [`edit_session`], [`moves`], [`replacement`],
//!   [`library_refresh`], [`page`], [`deletion`], [`markers`] and
//!   [`deletion_command`] make the changes, and [`commit`] and [`tool_error`]
//!   decide what is answered.
//! - What is on offer: [`catalog`], [`sch_components`], [`sch_analysis`],
//!   [`listing`], [`pin_locations`] and [`view_slot`].
//!
//! What holds of all of this is stated beside it, in terms of what goes in and
//! what comes out: of texts in [`text_laws`], of reading a design in
//! [`netlist_laws`] and [`flag_laws`], of a board in [`board_laws`], of plans and
//! their application in [`plan_laws`] and [`apply_laws`], of places and nets in
//! [`geometry_laws`], [`net_laws`], [`orphan_laws`] and [`report_laws`], and of
//! components in [`component_laws`], [`target_laws`], [`readback_laws`],
//! [`session_laws`], [`library_laws`] and [`deletion_laws`].

pub mod apply_laws;
pub mod board_laws;
pub mod catalog;
pub mod chars;
pub mod commit;
pub mod component_laws;
pub mod connected;
pub mod connectivity;
pub mod decimal;
pub mod deletion;
pub mod deletion_command;
pub mod deletion_laws;
pub mod dimensions;
pub mod edit_session;
pub mod field_placement;
pub mod field_reset;
pub mod flag_laws;
pub mod footprint_item;
pub mod geometry;
pub mod geometry_laws;
pub mod hierarchy;
pub mod hierarchy_laws;
pub mod identity;
pub mod intent;
pub mod library_laws;
pub mod library_refresh;
pub mod links;
pub mod listing;
pub mod lists;
pub mod markers;
pub mod moves;
pub mod net_graph;
pub mod net_laws;
pub mod net_queries;
pub mod netlist;
pub mod netlist_laws;
pub mod orphan_laws;
pub mod overlaps;
pub mod page;
pub mod pin_locations;
pub mod placement;
pub mod placement_laws;
pub mod plan_laws;
pub mod planner;
pub mod point_index;
pub mod property_edit;
pub mod property_laws;
pub mod property_text;
pub mod readback;
pub mod readback_laws;
pub mod replacement;
pub mod report_laws;
pub mod revision;
pub mod scan;
pub mod sch_analysis;
pub mod sch_components;
pub mod session_laws;
pub mod sexp;
pub mod sheet_reports;
pub mod single_pin;
pub mod symbol;
pub mod symbol_flags;
pub mod sync_apply;
pub mod sync_laws;
pub mod sync_plan;
pub mod sync_types;
pub mod target;
pub mod target_laws;
pub mod text;
pub mod text_laws;
pub mod text_map;
pub mod tool_error;
pub mod view_slot;
pub mod wire_index;
