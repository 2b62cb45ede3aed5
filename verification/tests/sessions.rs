//! Requests that gather edits, moves, refreshes, and the tools on offer.

use konnect_core::catalog::{
    ArgumentKind, Bound, DefaultValue, Entries, ToolArgument, ToolEntry,
};
use konnect_core::commit::{
    apply_component_prospective_fault, judge_committed, judge_prospective, message_or_text,
    tool_error_summary, ToolContent,
};
use konnect_core::decimal::{write_millionths, write_number, write_number_u64};
use konnect_core::dimensions::{footprint_dimensions, Graphic, PadOutline};
use konnect_core::edit_session::{
    annotation_counts, refuse_annotation, refuse_group, refuse_placement_unit, EditDecision, EditSession, FlagArgument, GroupSession,
    GroupStep, NumberArgument, PlacementArgument,
};
use konnect_core::field_placement::PlacementRefusal;
use konnect_core::field_reset::{
    reset_fields, reset_writes, FieldTarget, ResetProperty, ResetSymbol,
};
use konnect_core::intent::{ComponentTarget, ComponentTargetUnit, FieldPlacement};
use konnect_core::library_refresh::{
    lib_ids_to_refresh, missing_references, refresh_writes, set_property_at, summarise_refresh,
    ReembedOutcome,
};
use konnect_core::moves::{
    move_target, plan_region_move, rotate_target, verify_region_move, PlannedMove,
};
use konnect_core::deletion::PlacedInstance;
use konnect_core::page::paper_sizes;
use konnect_core::property_edit::PropertyWriteCounts;
use konnect_core::replacement::{embedded_unit_names, placed_unit_numbers, retarget};
use konnect_core::scan::{parse_u32, split_words, trim_spaces};
use konnect_core::sexp::SexpNode;
use konnect_core::symbol::{SheetSymbol, SymbolProperty};
use konnect_core::sync_types::Point;
use konnect_core::text_map::TextMap;
use konnect_core::view_slot::view_slot;
use std::collections::hash_map::DefaultHasher;
use std::hash::{Hash, Hasher};
use std::path::Path;
use konnect_core::tool_error::{
    completed_component_placement, failed_component_placement, invalid_argument,
    uncertain_component_placement, ComponentDeleteTargetError, OutcomeStatus, Recovery, ToolError,
    ToolErrorKind,
};

const PATH: &str = "/work/edit.kicad_sch";

fn names(list: &[&str]) -> Vec<String> {
    list.iter().map(|name| name.to_string()).collect()
}

fn counts(updated: usize, added: usize) -> Result<PropertyWriteCounts, String> {
    Ok(PropertyWriteCounts { updated, added })
}

// ─── Edits ────────────────────────────────────────────────────────────────────

#[test]
fn an_edit_reports_what_it_changed() {
    let mut session = EditSession::new("U1", 2);
    session.property_set("Value", "NEW", &counts(2, 0));
    assert!(session.renamed("U9", &counts(2, 0), &Ok(2)));
    assert!(session.accepts_custom_field("MPN", true));
    session.custom_field_set("MPN", "x", &counts(1, 1));
    assert_eq!(
        session.changed,
        names(&[
            "Value → NEW (2 unit(s))",
            "Reference → U9 (2 unit(s))",
            "instances reference → U9 (2)",
            "MPN → x (1 updated, 1 added)",
        ])
    );
    assert_eq!(session.edit_reference, "U9");
    assert_eq!(session.expected_fields.get("Value").unwrap(), "NEW");
    assert_eq!(session.decide(true), EditDecision::Commit);
}

#[test]
fn half_a_rename_counts_for_nothing() {
    let mut session = EditSession::new("U1", 1);
    assert!(!session.renamed("U9", &counts(1, 0), &Err("no path".to_string())));
    assert_eq!(session.edit_reference, "U1");
    assert!(session.changed.is_empty());
    assert_eq!(session.errors, names(&["instances reference: no path"]));
    assert_eq!(
        session.decide(true),
        EditDecision::Refuse {
            message: "No fields were updated on 'U1': instances reference: no path".to_string()
        }
    );
}

#[test]
fn an_edit_that_asks_for_nothing_only_reads() {
    assert_eq!(EditSession::new("U1", 1).decide(false), EditDecision::ReadOnly);
}

#[test]
fn custom_fields_are_texts_and_not_reserved() {
    let mut session = EditSession::new("R1", 1);
    assert!(!session.accepts_custom_field("Reference", true));
    assert!(!session.accepts_custom_field("MPN", false));
    assert_eq!(
        session.errors,
        names(&[
            "Reference: set this through the 'reference' parameter, not 'fields'",
            "MPN: field values must be strings",
        ])
    );
}

fn object(x: NumberArgument, hide: FlagArgument) -> PlacementArgument {
    PlacementArgument::Object {
        x,
        y: NumberArgument::Absent,
        rotation: NumberArgument::Absent,
        hide,
    }
}

#[test]
fn a_placement_must_set_something_and_name_its_unit() {
    let mut session = EditSession::new("U1", 2);
    let hidden = object(NumberArgument::Absent, FlagArgument::Flag(true));
    assert_eq!(
        session.accepts_placement("Value", hidden, None),
        Some(FieldPlacement { x: None, y: None, rotation: None, hide: Some(true) })
    );
    let refused = [
        PlacementArgument::NotAnObject,
        object(NumberArgument::Absent, FlagArgument::Absent),
        object(NumberArgument::Other, FlagArgument::Flag(true)),
        object(NumberArgument::Absent, FlagArgument::Other),
        object(NumberArgument::Number(5), FlagArgument::Absent),
    ];
    for argument in refused {
        assert_eq!(session.accepts_placement("Value", argument, None), None);
    }
    assert_eq!(session.errors.len(), 5);
    assert_eq!(session.errors[2], "Value.x: expected a number");
    assert_eq!(session.errors[3], "Value.hide: expected true or false");
    assert!(session.errors[4].contains("needs 'unit'"), "{}", session.errors[4]);
    let moved = object(NumberArgument::Number(5), FlagArgument::Absent);
    assert!(session.accepts_placement("Value", moved, Some(2)).is_some());
}

#[test]
fn a_malformed_file_ends_the_whole_edit() {
    let placement = || FieldPlacement { x: Some(1), y: None, rotation: None, hide: None };
    let mut session = EditSession::new("R1", 1);
    session.property_set("Value", "NEW", &counts(1, 0));
    let missing = Err(PlacementRefusal::TargetMissing("no such field".to_string()));
    assert_eq!(session.placement_set("MPN", placement(), None, &missing), None);
    let broken = Err(PlacementRefusal::MalformedFile("non-numeric x".to_string()));
    assert_eq!(
        session.placement_set("Value", placement(), None, &broken),
        Some("No fields were updated on 'R1': Value: non-numeric x".to_string())
    );
    assert_eq!(session.placement_set("Value", placement(), Some(1), &Ok(1)), None);
    assert_eq!(session.changed[1], "Value placement (1 unit(s))");
}

#[test]
fn reserved_keys_are_no_annotations() {
    assert!(refuse_annotation("Reference").unwrap().message.contains("edit_schematic_component"));
    assert_eq!(refuse_annotation("MPN"), None);
}

#[test]
fn units_and_groups_start_at_one() {
    assert_eq!(
        refuse_placement_unit(Some(0)).unwrap().message,
        "Argument 'unit' is invalid: expected a positive integer unit number"
    );
    assert_eq!(refuse_placement_unit(Some(1)), None);
    assert_eq!(refuse_placement_unit(None), None);
    assert_eq!(refuse_group(0).as_deref(), Some("No references provided"));
    assert_eq!(refuse_group(1), None);
}

#[test]
fn a_group_takes_each_component_once() {
    let mut session = GroupSession::new();
    assert_eq!(session.next_entry(Some("U1")), GroupStep::Take);
    assert_eq!(session.next_entry(Some("U1")), GroupStep::Skip);
    assert_eq!(session.next_entry(None), GroupStep::Skip);
    let absent = ComponentDeleteTargetError::Stale {
        target: PATH.to_string(),
        reason: "component U9 is not present".to_string(),
    };
    assert_eq!(session.binding_failed("U9", absent), None);
    let other = ComponentDeleteTargetError::Stale {
        target: PATH.to_string(),
        reason: "torn".to_string(),
    };
    assert!(session.binding_failed("U9", other).is_some());
    session.writing_failed("U1", "no place");
    assert_eq!(
        session.errors,
        names(&[
            "Component reference must be a string",
            "Component 'U9' not found",
            "U1: no place",
        ])
    );
    assert_eq!(session.decide(PATH, 1), None);
    let error = session.decide(PATH, 0).unwrap();
    assert!(error.message.ends_with("U1: no place"), "{}", error.message);
    assert!(GroupSession::new()
        .decide(PATH, 0)
        .unwrap()
        .message
        .ends_with("no components were selected"));
}

// ─── Moves ────────────────────────────────────────────────────────────────────

fn unit(uuid: &str, x: i64, y: i64, rotation: i64) -> ComponentTargetUnit {
    ComponentTargetUnit {
        uuid: uuid.to_string(),
        unit: 1,
        fields: TextMap::new(),
        lib_id: "Test:DUAL".to_string(),
        x,
        y,
        rotation,
        mirror: None,
        instances: Vec::new(),
    }
}

fn dual() -> ComponentTarget {
    ComponentTarget {
        reference: "U1".to_string(),
        units: vec![
            unit("a", 100_000_000, 100_000_000, 0),
            unit("b", 100_000_000, 120_000_000, 180_000_000),
        ],
    }
}

#[test]
fn every_unit_moves_by_one_distance() {
    let mut target = dual();
    move_target(&mut target, 100_000_000, 100_000_000, 110_490_000, 109_220_000);
    assert_eq!((target.units[0].x, target.units[0].y), (110_490_000, 109_220_000));
    assert_eq!((target.units[1].x, target.units[1].y), (110_490_000, 129_220_000));
}

#[test]
fn every_unit_turns_by_one_angle_within_a_full_turn() {
    let mut target = dual();
    rotate_target(&mut target, 0, 90_000_000);
    assert_eq!(target.units[0].rotation, 90_000_000);
    assert_eq!(target.units[1].rotation, 270_000_000);
    rotate_target(&mut target, 90_000_000, 180_000_000);
    assert_eq!(target.units[0].rotation, 180_000_000);
    assert_eq!(target.units[1].rotation, 0, "a full turn is stored as none");
    rotate_target(&mut target, 180_000_000, 450_000_000);
    assert_eq!(target.units[0].rotation, 90_000_000);

    // Turned there and back, every unit is where it was.
    let mut target = dual();
    for (from, to) in [(0, 90_000_000), (90_000_000, 270_000_000), (270_000_000, 0)] {
        rotate_target(&mut target, from, to);
    }
    assert_eq!(target, dual());
}

fn symbol(uuid: &str, reference: &str, unit: u32, x: i64) -> SheetSymbol {
    SheetSymbol {
        uuid: uuid.to_string(),
        lib_id: "Device:R".to_string(),
        unit,
        x,
        y: 0,
        rotation: None,
        mirror: None,
        properties: vec![SymbolProperty {
            name: "Reference".to_string(),
            value: reference.to_string(),
            at: None,
            nodes: Vec::new(),
        }],
        instances: Vec::new(),
        path_references: Vec::new(),
    }
}

#[test]
fn a_region_move_is_read_back() {
    let moves = |x: i64| {
        vec![
            PlannedMove { uuid: "a".to_string(), x, y: 0 },
            PlannedMove { uuid: "b".to_string(), x: 7_000_000, y: 0 },
        ]
    };
    let written = vec![symbol("b", "U1", 2, 7_000_000), symbol("a", "U1", 1, 5_000_000)];
    let report = verify_region_move(&written, &moves(5_000_000)).unwrap();
    assert_eq!(report.references, names(&["U1"]));
    assert_eq!(report.placements.len(), 2);
    assert_eq!((report.placements[1].unit, report.placements[1].x), (2, 7_000_000));
    let error = verify_region_move(&written, &moves(6_000_000)).unwrap_err();
    assert_eq!(
        error,
        "selected symbol UUID a was written at (5, 0), expected (6, 0)"
    );
    let error = verify_region_move(&Vec::new(), &moves(0)).unwrap_err();
    assert_eq!(error, "selected symbol UUID a is missing from the written schematic");
}

#[test]
fn a_region_moves_the_chosen_units_and_no_other() {
    let symbols = vec![
        symbol("b", "U1", 2, 7_000_000),
        symbol("c", "R1", 1, 1_000_000),
        symbol("a", "U1", 1, 5_000_000),
    ];
    let places = vec![(8_000_000, 1), (2_000_000, 2), (6_000_000, 3)];
    let moves = plan_region_move(&symbols, &names(&["a", "b", "gone"]), &places);
    assert_eq!(
        moves,
        vec![
            PlannedMove { uuid: "b".to_string(), x: 8_000_000, y: 1 },
            PlannedMove { uuid: "a".to_string(), x: 6_000_000, y: 3 },
        ]
    );
    let one = plan_region_move(&symbols, &names(&["b"]), &places);
    assert_eq!(one, vec![PlannedMove { uuid: "b".to_string(), x: 8_000_000, y: 1 }]);
    assert_eq!(plan_region_move(&symbols, &Vec::new(), &places), Vec::new());

    // Moved as planned, the region is confirmed.
    let mut written = symbols;
    written[0].x = 8_000_000;
    written[0].y = 1;
    assert!(verify_region_move(&written, &one).is_ok());
    assert!(verify_region_move(&written, &moves).is_err());
}

#[test]
fn the_units_of_a_reference_keep_their_order() {
    let placed = |reference: &str, unit: u32| PlacedInstance {
        reference: reference.to_string(),
        unit,
        uuid: None,
        lib_id: "Device:R".to_string(),
        x: 0,
        y: 0,
        rotation: 0,
    };
    let instances = vec![placed("U1", 3), placed("U10", 7), placed("U1", 1), placed("U1", 1)];
    assert_eq!(placed_unit_numbers(&instances, "U1"), vec![3, 1, 1]);
    assert_eq!(placed_unit_numbers(&instances, "U2"), Vec::<u32>::new());
}

#[test]
fn a_replacement_is_intended_for_every_unit() {
    let mut target = dual();
    retarget(&mut target, "Test:NEW", Some(4));
    assert!(target.units.iter().all(|unit| unit.lib_id == "Test:NEW" && unit.unit == 4));
    let mut target = dual();
    retarget(&mut target, "Test:NEW", None);
    assert!(target.units.iter().all(|unit| unit.unit == 1));
    assert_eq!(
        annotation_counts(&target, "Note"),
        PropertyWriteCounts { updated: 0, added: 2 }
    );
}

// ─── Libraries ────────────────────────────────────────────────────────────────

fn atom(text: &str) -> SexpNode {
    SexpNode::Atom(text.to_string())
}

fn text(value: &str) -> SexpNode {
    SexpNode::Str(value.to_string())
}

fn list(children: Vec<SexpNode>) -> SexpNode {
    SexpNode::List(children)
}

#[test]
fn the_units_of_an_embedded_symbol_are_found() {
    let root = list(vec![
        atom("kicad_sch"),
        list(vec![
            atom("lib_symbols"),
            list(vec![
                atom("symbol"),
                text("Test:DUAL"),
                list(vec![atom("symbol"), text("DUAL_1_1")]),
                list(vec![atom("symbol"), text("DUAL_2_1")]),
            ]),
        ]),
    ]);
    assert_eq!(
        embedded_unit_names(&root, "Test:DUAL"),
        Some(names(&["DUAL_1_1", "DUAL_2_1"]))
    );
    assert_eq!(embedded_unit_names(&root, "Test:OTHER"), None);
}

fn placed(reference: &str, lib_id: &str) -> PlacedInstance {
    PlacedInstance {
        reference: reference.to_string(),
        unit: 1,
        uuid: None,
        lib_id: lib_id.to_string(),
        x: 0,
        y: 0,
        rotation: 0,
    }
}

#[test]
fn each_library_symbol_is_refreshed_once() {
    let sheet = vec![placed("R1", "Device:R"), placed("R2", "Device:R"), placed("C1", "Device:C")];
    assert_eq!(
        lib_ids_to_refresh(PATH, &sheet, &None),
        Ok(names(&["Device:R", "Device:C"]))
    );
    assert_eq!(
        lib_ids_to_refresh(PATH, &sheet, &Some(names(&["C1"]))),
        Ok(names(&["Device:C"]))
    );
    assert_eq!(
        lib_ids_to_refresh(PATH, &sheet, &Some(names(&["U9"]))),
        Err("Component 'U9' not found in /work/edit.kicad_sch".to_string())
    );
}

#[test]
fn a_refresh_sorts_its_outcomes() {
    let report = summarise_refresh(
        &names(&["A", "B", "C", "D", "E"]),
        &vec![
            ReembedOutcome::Updated,
            ReembedOutcome::Unchanged,
            ReembedOutcome::PinsMoved(names(&["pin 2"])),
            ReembedOutcome::Unresolved,
            ReembedOutcome::NotEmbedded,
        ],
    );
    assert_eq!(report.updated, names(&["A"]));
    assert_eq!(report.unchanged, names(&["B"]));
    assert_eq!(report.pins_moved, vec![2]);
    assert_eq!(
        report.errors,
        names(&[
            "'D' no longer resolves in any registered library — the embedded copy is left as it is",
            "'E' has no embedded definition to update",
        ])
    );
    assert!(refresh_writes(1, false));
    assert!(!refresh_writes(1, true));
    assert!(!refresh_writes(0, false));
}

fn at(x: &str, y: &str, rotation: &str) -> SexpNode {
    list(vec![atom("at"), atom(x), atom(y), atom(rotation)])
}

fn field(name: &str, place: SexpNode) -> ResetProperty {
    ResetProperty { name: name.to_string(), nodes: vec![place] }
}

fn anchored(reference: &str, properties: Vec<ResetProperty>) -> ResetSymbol {
    let target = |x: &str| {
        Some(FieldTarget {
            x: x.to_string(),
            y: "50.8".to_string(),
            rotation: "90".to_string(),
        })
    };
    ResetSymbol {
        reference: Some(reference.to_string()),
        reference_target: target("103.632"),
        value_target: target("101.6"),
        properties,
    }
}

#[test]
fn stale_fields_go_back_to_their_anchors() {
    let mut symbols = vec![anchored(
        "R1",
        vec![
            field("Reference", at("101.6", "46.99", "0")),
            field("Value", at("101.6", "54.61", "0")),
        ],
    )];
    let report = reset_fields(&mut symbols, &None);
    assert_eq!(report.moved, names(&["R1.Reference", "R1.Value"]));
    assert_eq!(symbols[0].properties[0].nodes, vec![at("103.632", "50.8", "90")]);
    assert_eq!(symbols[0].properties[1].nodes, vec![at("101.6", "50.8", "90")]);
    assert!(reset_writes(&report, false));
    assert!(!reset_writes(&report, true));

    // Nothing is left to move on a second pass.
    let again = reset_fields(&mut symbols, &None);
    assert_eq!(again.moved, Vec::<String>::new());
    assert_eq!(again.unchanged, names(&["R1.Reference", "R1.Value"]));
    assert!(!reset_writes(&again, false));
}

#[test]
fn fields_that_cannot_be_reset_are_reported() {
    let mut symbols = vec![anchored("R1", vec![field("Reference", at("1", "2", "0"))])];
    let asked = Some(names(&["R9", "R2", "U7", "C3"]));
    let report = reset_fields(&mut symbols, &asked);
    assert_eq!(report.not_found, names(&["C3", "R2", "R9", "U7"]));
    assert_eq!(report.moved, Vec::<String>::new());

    let report = reset_fields(&mut symbols, &Some(names(&["R1"])));
    assert_eq!(report.moved, names(&["R1.Reference"]));
    assert_eq!(report.no_property, names(&["R1.Value"]));
    assert_eq!(report.not_found, Vec::<String>::new());

    symbols[0].reference_target = None;
    let report = reset_fields(&mut symbols, &None);
    assert_eq!(report.no_anchor, names(&["R1.Reference"]));
    assert_eq!(
        missing_references(&names(&["b", "a", "b"]), &names(&["c"])),
        names(&["a", "b"])
    );
}

#[test]
fn a_property_without_a_place_gets_one_in_front() {
    let mut nodes = vec![list(vec![atom("effects")])];
    assert!(set_property_at(&mut nodes, "1", "2", "0"));
    assert_eq!(nodes[0], at("1", "2", "0"));
    assert_eq!(nodes.len(), 2);
    assert!(!set_property_at(&mut nodes, "1", "2", "0"));
}

// ─── Answers ──────────────────────────────────────────────────────────────────

fn content(text: &str) -> ToolContent {
    ToolContent::Text { text: text.to_string() }
}

#[test]
fn an_answer_is_summed_up_by_its_message() {
    let summary = |contents: Vec<ToolContent>| tool_error_summary(&contents);
    assert_eq!(
        summary(vec![ToolContent::Image, content("{\"message\": \"it broke\", \"n\": 1}")]),
        "it broke"
    );
    assert_eq!(summary(vec![content("plain text")]), "plain text");
    assert_eq!(summary(vec![content("{\"message\": 7}")]), "{\"message\": 7}");
    assert_eq!(summary(Vec::new()), "readback returned no diagnostic text");
    assert_eq!(message_or_text(None, "t"), "t");
    assert_eq!(message_or_text(Some("m".to_string()), "t"), "m");
}

#[test]
fn an_unreadable_file_is_refused_before_and_uncertain_after() {
    let unreadable = Err("unbalanced".to_string());
    let error = judge_prospective(PATH, true, &unreadable, &Vec::new()).unwrap_err();
    assert!(error.message.ends_with("prospective schematic is not readable: unbalanced"));
    assert_eq!(
        judge_committed(PATH, true, &unreadable, &Vec::new()),
        Err("The committed schematic could not be loaded: unbalanced".to_string())
    );
    assert_eq!(
        apply_component_prospective_fault(
            "aXbX".to_string(),
            Some(("X".to_string(), "YY".to_string()))
        ),
        "aYYbX"
    );
    assert_eq!(apply_component_prospective_fault("a".to_string(), None), "a");
}

#[test]
fn a_placement_ends_in_one_of_three_ways() {
    let error = || ToolError { kind: None, message: "no".to_string() };
    let failed = failed_component_placement(error(), PATH);
    assert_eq!(failed.outcome.status, OutcomeStatus::Failed);
    assert_eq!(failed.outcome.recovery, Some(Recovery::RetryWholeRequest));
    let uncertain = uncertain_component_placement(error(), PATH);
    assert_eq!(uncertain.outcome.status, OutcomeStatus::Uncertain);
    assert_eq!(uncertain.outcome.recovery, Some(Recovery::InspectBeforeRetry));
    assert_eq!(uncertain.outcome.verification, "saved_file_readback");
    let complete = completed_component_placement(PATH);
    assert_eq!((complete.succeeded, complete.failed), (1, 0));
    let invalid = invalid_argument("unit", "out of range".to_string());
    assert_eq!(invalid.message, "Argument 'unit' is invalid: out of range");
    assert!(matches!(invalid.kind, Some(ToolErrorKind::InvalidArgument { .. })));
}

// ─── Sizes, numbers and words ─────────────────────────────────────────────────

#[test]
fn a_footprint_is_as_large_as_what_it_holds() {
    let pad = |x: i64| PadOutline {
        center: Point { x, y: 0 },
        size_x: 1_000_000,
        size_y: 2_000_000,
    };
    let extent = footprint_dimensions(&vec![pad(-2_000_000), pad(2_000_000)], &Vec::new());
    assert_eq!((extent.width, extent.height), (5_000_000, 2_000_000));
    let circle = Graphic::Circle { center: Point { x: 0, y: 0 }, radius: 4_000_000 };
    let extent = footprint_dimensions(&vec![pad(0)], &vec![circle]);
    assert_eq!((extent.width, extent.height), (8_000_000, 8_000_000));
    let extent = footprint_dimensions(&Vec::new(), &Vec::new());
    assert_eq!((extent.width, extent.height), (10_000_000, 10_000_000));
    let line = Graphic::Line { start: Point { x: 0, y: 0 }, end: Point { x: 3_000_000, y: 0 } };
    let extent = footprint_dimensions(&Vec::new(), &vec![line]);
    assert_eq!((extent.width, extent.height), (3_000_000, 1_000_000));
}

#[test]
fn numbers_are_written_in_decimal() {
    assert_eq!(write_number(0), "0");
    assert_eq!(write_number_u64(u64::MAX), "18446744073709551615");
    assert_eq!(write_millionths(158_750_000), "158.75");
    assert_eq!(write_millionths(-500_000), "-0.5");
    assert_eq!(write_millionths(1), "0.000001");
    assert_eq!(parse_u32("4294967295"), Some(u32::MAX));
    assert_eq!(parse_u32("4294967296"), None);
    assert_eq!(parse_u32("x"), None);
    assert_eq!(split_words(" a\tb\n"), names(&["a", "b"]));
    assert_eq!(trim_spaces("  a b "), "a b");
}

// ─── Tools ────────────────────────────────────────────────────────────────────

fn tool<'a>(tools: &'a [ToolEntry], name: &str) -> &'a ToolEntry {
    tools.iter().find(|tool| tool.name == name).unwrap()
}

fn argument<'a>(tool: &'a ToolEntry, name: &str) -> &'a ToolArgument {
    tool.arguments.iter().find(|argument| argument.name == name).unwrap()
}

#[test]
fn the_tools_are_listed_with_their_arguments() {
    let components = konnect_core::sch_components::tools();
    assert_eq!(components.len(), 20);
    assert_eq!(components[0].name, "create_schematic");
    let add = tool(&components, "add_schematic_component");
    assert!(add.description.starts_with("Add a symbol from a KiCAD library"));
    let required: Vec<&str> = add
        .arguments
        .iter()
        .filter(|argument| argument.required)
        .map(|argument| argument.name)
        .collect();
    assert_eq!(required, vec!["schematic", "lib_id", "x", "y"]);
    let unit = add.arguments.iter().find(|argument| argument.name == "unit").unwrap();
    assert_eq!(unit.kind, ArgumentKind::Integer);

    assert_eq!(unit.bound, Some(Bound::AtLeast(1)));
    assert_eq!(unit.default_value, Some(DefaultValue::Number(1_000_000)));
    assert_eq!(
        unit.description,
        Some("Unit number for multi-unit symbols (gate/part selection). Default 1.")
    );
    let mirror = argument(add, "mirror");
    assert_eq!(mirror.choices, vec!["x", "y", "none"]);
    assert_eq!(mirror.default_value, None);
    assert_eq!(argument(add, "lib_id").description, Some("Library:Symbol (e.g. 'Device:R')"));
    let size = argument(&components[0], "size");
    let sizes: Vec<&str> = paper_sizes().iter().map(|size| size.name).collect();
    assert_eq!(size.choices, sizes);
    assert_eq!(size.choices.len(), 14);
    assert_eq!(size.default_value, Some(DefaultValue::Text("A4")));
    assert_eq!(
        argument(&components[0], "portrait").default_value,
        Some(DefaultValue::Flag(false))
    );
    let edit = tool(&components, "edit_schematic_component");
    assert_eq!(argument(edit, "fields").entries, Entries::Anything);
    let Entries::Objects(members) = &argument(edit, "field_placements").entries else {
        panic!("placements have no members");
    };
    let names: Vec<&str> = members.iter().map(|member| member.name).collect();
    assert_eq!(names, vec!["x", "y", "rotation", "hide"]);
    assert_eq!(members[3].kind, ArgumentKind::Flag);
    assert_eq!(
        members[3].description,
        Some("true hides the field's text on the sheet; false shows it.")
    );
    assert_eq!(argument(edit, "schematic").description, None);

    let analysis = konnect_core::sch_analysis::tools();
    assert_eq!(analysis.len(), 15);
    let tolerance = argument(tool(&analysis, "find_orphan_items"), "tolerance");
    assert_eq!(tolerance.bound, Some(Bound::Above(0)));
    assert_eq!(tolerance.default_value, Some(DefaultValue::Number(50_000)));
    assert_eq!(tool(&analysis, "find_orphan_items").arguments.len(), 2);

    let mut all: Vec<&str> =
        components.iter().chain(analysis.iter()).map(|tool| tool.name).collect();
    all.sort_unstable();
    all.dedup();
    assert_eq!(all.len(), 35);
}

// ─── Views ────────────────────────────────────────────────────────────────────

fn slot(path: &str) -> String {
    let mut hasher = DefaultHasher::new();
    Path::new(path).hash(&mut hasher);
    view_slot(hasher.finish())
}

#[test]
fn the_view_slot_is_stable_for_one_schematic() {
    let sheet = "/projects/alpha/power.kicad_sch";
    assert_eq!(slot(sheet), slot(sheet));
}

#[test]
fn two_sheets_sharing_a_stem_get_different_slots() {
    let alpha = slot("/projects/alpha/power.kicad_sch");
    let beta = slot("/projects/beta/power.kicad_sch");
    assert_ne!(alpha, beta);
}

#[test]
fn a_slot_has_sixteen_digits() {
    assert_eq!(view_slot(0), "0000000000000000");
    assert_eq!(view_slot(0x12ab), "00000000000012ab");
    assert_eq!(view_slot(u64::MAX), "ffffffffffffffff");
}
