//! Planning and applying a board update.

use konnect_core::footprint_item::{
    apply_footprint_fields, field_text, set_field_text, sheet_path_string, snapshot_footprint,
    snapshot_footprints, FieldItem, FootprintAttributes, FootprintChild, FootprintDefinition,
    FootprintError, FootprintItem, LibraryId, PadNet,
};
use konnect_core::hierarchy::{
    refuse_locked, saved_hierarchy_files, ChildSheet, HierarchyError, SheetFile,
};
use konnect_core::identity::{append_identity_bytes, append_sexp_identity, netlist_identity};
use konnect_core::netlist::{parse_exported_netlist, required_value, NetlistError};
use konnect_core::planner::plan_sync;
use konnect_core::revision::{plan_revision, refresh_revision_with_staging};
use konnect_core::sexp::SexpNode;
use konnect_core::symbol_flags::apply_saved_symbol_flags;
use konnect_core::sync_apply::{
    build_mutation_items, count_routed_nets, decide_apply, footprint_shapes,
    footprints_to_prepare, record_applied, refuse_preparation, request_names_revision,
    restage_additions, status_text, update_footprint_item, verify_board_matches_what_was_sent,
    Extent, FootprintShape, MutationError, SyncStep,
};
use konnect_core::sync_types::{
    BoardFootprint, BoardState, Bounds, DesignComponent, ExportedDesign, PlanStatus,
    PlannedChange, Point, PreservedBoardState, SkippedComponent, SyncPlan,
};
use konnect_core::text_map::TextMap;

/// Millimetres in nanometres.
fn mm(value: f64) -> i64 {
    (value * 1_000_000.0).round() as i64
}

fn degrees(value: f64) -> i64 {
    (value * 1_000_000.0).round() as i64
}

/// Reads one S-expression.
fn parse(text: &str) -> Option<SexpNode> {
    let chars: Vec<char> = text.chars().collect();
    let mut at = 0;
    let node = parse_at(&chars, &mut at)?;
    while at < chars.len() && chars[at].is_whitespace() {
        at += 1;
    }
    match (at == chars.len(), &node) {
        (true, SexpNode::List(_)) => Some(node),
        _ => None,
    }
}

fn parse_at(chars: &[char], at: &mut usize) -> Option<SexpNode> {
    while *at < chars.len() && chars[*at].is_whitespace() {
        *at += 1;
    }
    match chars.get(*at)? {
        '(' => {
            *at += 1;
            let mut children = Vec::new();
            loop {
                while *at < chars.len() && chars[*at].is_whitespace() {
                    *at += 1;
                }
                if *chars.get(*at)? == ')' {
                    *at += 1;
                    return Some(SexpNode::List(children));
                }
                children.push(parse_at(chars, at)?);
            }
        }
        '"' => {
            *at += 1;
            let mut value = String::new();
            loop {
                let c = *chars.get(*at)?;
                *at += 1;
                match c {
                    '"' => return Some(SexpNode::Str(value)),
                    '\\' => {
                        value.push(*chars.get(*at)?);
                        *at += 1;
                    }
                    _ => value.push(c),
                }
            }
        }
        ')' => None,
        _ => {
            let mut value = String::new();
            while *at < chars.len() && !chars[*at].is_whitespace() && !"()\"".contains(chars[*at])
            {
                value.push(chars[*at]);
                *at += 1;
            }
            Some(SexpNode::Atom(value))
        }
    }
}

fn tree(text: &str) -> SexpNode {
    parse(text).expect("a tree")
}

fn nets(pairs: &[(&str, &str)]) -> TextMap<String> {
    let mut map = TextMap::new();
    for (pad, net) in pairs {
        map.insert(pad.to_string(), net.to_string());
    }
    map
}

fn codes(pairs: &[(&str, i32)]) -> TextMap<i32> {
    let mut map = TextMap::new();
    for (net, code) in pairs {
        map.insert(net.to_string(), *code);
    }
    map
}

fn counts(pairs: &[(&str, usize)]) -> TextMap<usize> {
    let mut map = TextMap::new();
    for (net, count) in pairs {
        map.insert(net.to_string(), *count);
    }
    map
}

/// The bounds of a board in JSON, in millimetres.
fn bounds_json(bounds: &Bounds) -> Vec<u8> {
    let value = |nanometres: i64| nanometres as f64 / 1_000_000.0;
    format!(
        "{{\"min_x\":{:?},\"min_y\":{:?},\"max_x\":{:?},\"max_y\":{:?}}}",
        value(bounds.min_x),
        value(bounds.min_y),
        value(bounds.max_x),
        value(bounds.max_y)
    )
    .into_bytes()
}

fn plan(source: &str, design: &ExportedDesign, board: &BoardState) -> SyncPlan {
    plan_sync(source, &parse(source), design, board, &bounds_json(&board.bounds))
}

fn revision(source: &str, board: &BoardState) -> String {
    plan_revision(source, &parse(source), board, &bounds_json(&board.bounds))
}

const ONE_RESISTOR: &str = r#"
(export
  (components
    (comp
      (ref "R1")
      (value "10k")
      (footprint "Resistor_SMD:R_0603_1608Metric")
      (sheetpath (names "/Power/") (tstamps "/sheet-uuid/"))
      (tstamps "symbol-uuid")
      (units (unit (name "A") (pins (pin (num "1")) (pin (num "2")))))))
  (nets
    (net (code "1") (name "/Power/VCC") (class "Default")
      (node (ref "R1") (pin "1") (pintype "passive")))
    (net (code "2") (name "GND") (class "Default")
      (node (ref "R1") (pin "2") (pintype "passive")))))
"#;

#[test]
fn exported_netlist_is_one_flattened_source_of_component_and_pad_truth() {
    let design = parse_exported_netlist(&tree(ONE_RESISTOR)).expect("valid KiCad netlist");

    assert_eq!(design.components.len(), 1);
    let component = &design.components[0];
    assert_eq!(component.reference, "R1");
    assert_eq!(component.value, "10k");
    assert_eq!(component.footprint_id, "Resistor_SMD:R_0603_1608Metric");
    assert_eq!(component.symbol_path, "/sheet-uuid/symbol-uuid");
    assert_eq!(
        component.pad_nets.get("1").map(String::as_str),
        Some("/Power/VCC")
    );
    assert_eq!(component.pad_nets.get("2").map(String::as_str), Some("GND"));
    assert!(!component.dnp);
}

fn resistor(reference: &str, symbol_path: &str) -> DesignComponent {
    DesignComponent {
        reference: reference.to_string(),
        value: "10k".to_string(),
        footprint_id: "Resistor_SMD:R_0603_1608Metric".to_string(),
        symbol_path: symbol_path.to_string(),
        dnp: false,
        pad_nets: nets(&[("1", "VCC"), ("2", "GND")]),
    }
}

fn board_resistor(reference: &str, symbol_path: Option<&str>) -> BoardFootprint {
    BoardFootprint {
        kiid: format!("{reference}-kiid"),
        reference: reference.to_string(),
        value: "10k".to_string(),
        footprint_id: "Resistor_SMD:R_0603_1608Metric".to_string(),
        symbol_path: symbol_path.map(str::to_string),
        pad_nets: nets(&[("1", "VCC"), ("2", "GND")]),
        position: Point { x: mm(1.0), y: mm(2.0) },
        rotation: 0,
        layer: "F.Cu".to_string(),
        locked: false,
        dnp: false,
        not_in_schematic: false,
    }
}

fn board_with(footprints: Vec<BoardFootprint>) -> BoardState {
    BoardState {
        footprints,
        routed_nets: TextMap::new(),
        bounds: Bounds {
            min_x: mm(0.0),
            min_y: mm(0.0),
            max_x: mm(10.0),
            max_y: mm(10.0),
        },
    }
}

#[test]
fn planner_matches_identity_preserves_pose_and_stages_new_parts_deterministically() {
    let design = ExportedDesign {
        components: vec![
            resistor("R2", "/sheet/existing"),
            resistor("R3", "/sheet/new"),
        ],
        skipped: Vec::new(),
    };
    let board = BoardState {
        footprints: vec![
            BoardFootprint {
                kiid: "existing-kiid".to_string(),
                reference: "R1".to_string(),
                value: "1k".to_string(),
                footprint_id: "Resistor_SMD:R_0603_1608Metric".to_string(),
                symbol_path: Some("/sheet/existing".to_string()),
                pad_nets: nets(&[("1", "VCC"), ("2", "GND")]),
                position: Point { x: mm(25.0), y: mm(30.0) },
                rotation: degrees(90.0),
                layer: "B.Cu".to_string(),
                locked: true,
                dnp: false,
                not_in_schematic: false,
            },
            BoardFootprint {
                kiid: "board-only".to_string(),
                reference: "MH1".to_string(),
                value: "MountingHole".to_string(),
                footprint_id: "MountingHole:MountingHole_3.2mm_M3".to_string(),
                symbol_path: None,
                pad_nets: TextMap::new(),
                position: Point { x: mm(2.0), y: mm(2.0) },
                rotation: 0,
                layer: "F.Cu".to_string(),
                locked: true,
                dnp: false,
                not_in_schematic: true,
            },
        ],
        routed_nets: TextMap::new(),
        bounds: Bounds {
            min_x: mm(0.0),
            min_y: mm(0.0),
            max_x: mm(50.0),
            max_y: mm(40.0),
        },
    };

    let first = plan("netlist bytes", &design, &board);
    let second = plan("netlist bytes", &design, &board);

    assert_eq!(first.status, PlanStatus::Ready);
    assert_eq!(first.plan_revision, second.plan_revision);
    assert_eq!(first.counts.added.planned, 1);
    assert_eq!(first.counts.updated.planned, 1);
    assert_eq!(first.counts.board_only_preserved.planned, 1);
    assert_eq!(first.changes, second.changes);
    assert!(first.changes.iter().any(|change| matches!(
        change,
        PlannedChange::Update { kiid, reference, preserve, .. }
            if kiid == "existing-kiid"
                && reference == "R2"
                && preserve.position == Point { x: mm(25.0), y: mm(30.0) }
                && preserve.rotation == degrees(90.0)
                && preserve.layer == "B.Cu"
                && preserve.locked
    )));
    assert!(first.changes.iter().any(|change| matches!(
        change,
        PlannedChange::Add { reference, position, .. }
            if reference == "R3" && position.x > board.bounds.max_x
    )));
}

fn other(declared: &str) -> FootprintChild {
    FootprintChild::Other {
        declared: format!("kiapi.board.types.{declared}"),
        bytes: declared.as_bytes().to_vec(),
    }
}

fn field(name: &str, text: &str) -> Option<FieldItem> {
    Some(FieldItem { name: name.to_string(), text: Some(text.to_string()) })
}

/// A footprint with one pad and one child of every graphic sort, the way a
/// real library footprint arrives: five shapes and one text.
fn footprint_with_artwork(reference: &str) -> FootprintItem {
    FootprintItem {
        id: Some(format!("{}-kiid", reference.to_lowercase())),
        reference_field: field("Reference", reference),
        value_field: field("Value", "NE555"),
        definition: Some(FootprintDefinition {
            id: Some(LibraryId {
                library_nickname: "Package_SO".to_string(),
                entry_name: "SOIC-8_3.9x4.9mm_P1.27mm".to_string(),
            }),
            reference_field: field("Reference", reference),
            value_field: field("Value", "NE555"),
            attributes: None,
            items: vec![
                FootprintChild::Pad { number: "1".to_string(), net: None },
                other("BoardGraphicShape"),
                other("BoardGraphicShape"),
                other("BoardGraphicShape"),
                other("BoardGraphicShape"),
                other("BoardGraphicShape"),
                other("BoardText"),
            ],
        }),
        symbol_path: None,
        attributes: None,
        position: Some(Point { x: mm(25.0), y: mm(30.0) }),
        rotation: Some(0),
        layer: "F.Cu".to_string(),
        locked: false,
    }
}

/// The declared types of a footprint's children, tallied.
fn child_types(item: &FootprintItem) -> (usize, usize, usize) {
    let children = &item.definition.as_ref().unwrap().items;
    let declared = |name: &str| {
        children
            .iter()
            .filter(|child| matches!(child, FootprintChild::Other { declared, .. } if declared == name))
            .count()
    };
    (
        children
            .iter()
            .filter(|child| !matches!(child, FootprintChild::Other { .. }))
            .count(),
        declared("kiapi.board.types.BoardGraphicShape"),
        declared("kiapi.board.types.BoardText"),
    )
}

fn artwork_change() -> PlannedChange {
    PlannedChange::Update {
        kiid: "u1-kiid".to_string(),
        reference: "U1".to_string(),
        value: "NE555".to_string(),
        symbol_path: "/root/u1".to_string(),
        dnp: false,
        pad_nets: nets(&[("1", "GND")]),
        preserve: PreservedBoardState {
            position: Point { x: mm(25.0), y: mm(30.0) },
            rotation: 0,
            layer: "F.Cu".to_string(),
            locked: false,
        },
    }
}

#[test]
fn syncing_a_footprint_leaves_its_graphics_as_graphics() {
    let item = footprint_with_artwork("U1");
    let before = child_types(&item);
    assert_eq!(before, (1, 5, 1));

    let updated = update_footprint_item(item, &artwork_change(), &codes(&[("GND", 1)])).unwrap();

    assert_eq!(
        child_types(&updated),
        before,
        "sync re-typed footprint children; graphics must survive as graphics"
    );
    let pad = updated
        .definition
        .as_ref()
        .unwrap()
        .items
        .iter()
        .find_map(|child| match child {
            FootprintChild::Pad { net, .. } => Some(net),
            _ => None,
        })
        .expect("the pad survived");
    assert_eq!(pad.as_ref().unwrap().name, "GND");
    assert_eq!(updated.definition.as_ref().unwrap().items[6], other("BoardText"));
}

#[test]
fn a_newly_added_footprint_keeps_its_graphics_too() {
    let item = footprint_with_artwork("U2");
    let before = child_types(&item);
    let footprint = apply_footprint_fields(
        item,
        "U2",
        "NE555",
        "/root/u2",
        false,
        &nets(&[("1", "VCC")]),
        &codes(&[("VCC", 3)]),
    )
    .unwrap();
    assert_eq!(child_types(&footprint), before);
}

#[test]
fn the_post_apply_check_sees_drawings_turned_into_pads() {
    let sent = vec![footprint_with_artwork("U4")];
    let expected = footprint_shapes(&sent);
    assert_eq!(
        expected.get("U4"),
        Some(&FootprintShape { pads: 1, drawings: 6 })
    );

    // Every shape is taken for a pad and packed back as one; the text cannot
    // be read as a pad, so it survives.
    let mut corrupted = footprint_with_artwork("U4");
    for child in &mut corrupted.definition.as_mut().unwrap().items {
        if *child == other("BoardGraphicShape") {
            *child = FootprintChild::Pad { number: String::new(), net: None };
        }
    }
    let actual = footprint_shapes(&vec![corrupted]);
    assert_eq!(
        actual.get("U4"),
        Some(&FootprintShape { pads: 6, drawings: 1 })
    );
    assert_ne!(actual.get("U4"), expected.get("U4"));
    assert!(verify_board_matches_what_was_sent(&expected, &actual).is_err());
    assert_eq!(
        verify_board_matches_what_was_sent(&expected, &expected),
        Ok(Vec::new())
    );
}

#[test]
fn an_undecodable_pad_is_reported_not_skipped() {
    let mut footprint = footprint_with_artwork("U3");
    for child in &mut footprint.definition.as_mut().unwrap().items {
        if matches!(child, FootprintChild::Pad { .. }) {
            *child = FootprintChild::UnreadablePad { bytes: vec![0xff, 0xff, 0xff] };
        }
    }

    let error = apply_footprint_fields(
        footprint,
        "U3",
        "NE555",
        "/root/u3",
        false,
        &nets(&[("1", "VCC")]),
        &TextMap::new(),
    )
    .expect_err("an unreadable pad must not pass silently");
    let text = error.message();
    assert!(
        text.contains("U3") && text.contains("cannot read"),
        "must say the pad is unreadable, not that it is missing: {text}"
    );
}

#[test]
fn update_item_changes_only_schematic_owned_fields() {
    let footprint = || FootprintItem {
        id: Some("keep-kiid".to_string()),
        reference_field: field("Reference", "R1"),
        value_field: field("Value", "1k"),
        definition: Some(FootprintDefinition {
            id: Some(LibraryId {
                library_nickname: "Resistor_SMD".to_string(),
                entry_name: "R_0603_1608Metric".to_string(),
            }),
            reference_field: field("Reference", "R1"),
            value_field: field("Value", "1k"),
            attributes: None,
            items: vec![FootprintChild::Pad { number: "1".to_string(), net: None }],
        }),
        symbol_path: None,
        attributes: None,
        position: Some(Point { x: mm(25.0), y: mm(30.0) }),
        rotation: Some(degrees(90.0)),
        layer: "F.Cu".to_string(),
        locked: true,
    };
    let change = PlannedChange::Update {
        kiid: "keep-kiid".to_string(),
        reference: "R2".to_string(),
        value: "10k".to_string(),
        symbol_path: "/root/symbol".to_string(),
        dnp: true,
        pad_nets: nets(&[("1", "VCC")]),
        preserve: PreservedBoardState {
            position: Point { x: mm(25.0), y: mm(30.0) },
            rotation: degrees(90.0),
            layer: "F.Cu".to_string(),
            locked: true,
        },
    };

    let updated = update_footprint_item(footprint(), &change, &codes(&[("VCC", 7)])).unwrap();

    let before = footprint();
    assert_eq!(updated.id.as_deref(), Some("keep-kiid"));
    assert_eq!(updated.position, before.position);
    assert_eq!(updated.rotation, before.rotation);
    assert_eq!(updated.layer, before.layer);
    assert_eq!(updated.locked, before.locked);
    assert!(updated.attributes.as_ref().unwrap().do_not_populate);
    assert_eq!(field_text(&updated.reference_field), "R2");
    assert_eq!(field_text(&updated.value_field), "10k");
    assert_eq!(
        updated.definition.as_ref().unwrap().items[0],
        FootprintChild::Pad {
            number: "1".to_string(),
            net: Some(PadNet { code: Some(7), name: "VCC".to_string() }),
        }
    );
}

#[test]
fn removing_a_pad_from_a_routed_net_conflicts_the_whole_plan() {
    let design = ExportedDesign {
        components: vec![DesignComponent {
            pad_nets: TextMap::new(),
            ..resistor("R1", "/sheet/existing")
        }],
        skipped: Vec::new(),
    };
    let board = BoardState {
        footprints: vec![BoardFootprint {
            kiid: "existing-kiid".to_string(),
            pad_nets: nets(&[("1", "VCC")]),
            ..board_resistor("R1", Some("/sheet/existing"))
        }],
        routed_nets: counts(&[("VCC", 1)]),
        bounds: Bounds { min_x: 0, min_y: 0, max_x: mm(10.0), max_y: mm(10.0) },
    };

    let plan = plan("netlist", &design, &board);

    assert_eq!(plan.status, PlanStatus::Conflict);
    assert!(plan.changes.is_empty());
    assert!(plan
        .diagnostics
        .iter()
        .any(|diagnostic| diagnostic.code == "routed_pad_net_change"));
}

#[test]
fn already_synchronized_design_is_noop() {
    let design = ExportedDesign {
        components: vec![resistor("R1", "/sheet/existing")],
        skipped: Vec::new(),
    };
    let plan = plan(
        "netlist",
        &design,
        &board_with(vec![board_resistor("R1", Some("/sheet/existing"))]),
    );

    assert_eq!(plan.status, PlanStatus::Noop);
    assert!(plan.changes.is_empty());
    assert_eq!(plan.counts.conflicts.planned, 0);
}

#[test]
fn footprint_swap_conflicts_but_an_unrouted_net_change_is_planned() {
    let design = ExportedDesign {
        components: vec![resistor("R1", "/sheet/existing")],
        skipped: Vec::new(),
    };
    let mut footprint = board_resistor("R1", Some("/sheet/existing"));
    footprint.footprint_id = "Resistor_SMD:R_0805_2012Metric".to_string();
    let swap = plan("netlist", &design, &board_with(vec![footprint]));
    assert_eq!(swap.status, PlanStatus::Conflict);
    assert!(swap
        .diagnostics
        .iter()
        .any(|diagnostic| diagnostic.code == "footprint_id_changed"));

    let mut footprint = board_resistor("R1", Some("/sheet/existing"));
    footprint.pad_nets.insert("1".to_string(), "OLD_VCC".to_string());
    let net_change = plan("netlist", &design, &board_with(vec![footprint]));
    assert_eq!(net_change.status, PlanStatus::Ready);
    assert_eq!(net_change.counts.pads_reassigned.planned, 1);
}

#[test]
fn on_board_no_skips_absent_but_conflicts_when_present() {
    let design = ExportedDesign {
        components: Vec::new(),
        skipped: vec![SkippedComponent {
            reference: "R1".to_string(),
            symbol_path: "/sheet/existing".to_string(),
        }],
    };
    let absent = plan("netlist", &design, &board_with(Vec::new()));
    assert_eq!(absent.status, PlanStatus::Noop);
    assert_eq!(absent.counts.skipped_by_flag.planned, 1);

    let present = plan(
        "netlist",
        &design,
        &board_with(vec![board_resistor("R1", Some("/sheet/existing"))]),
    );
    assert_eq!(present.status, PlanStatus::Conflict);
    assert!(present
        .diagnostics
        .iter()
        .any(|diagnostic| diagnostic.code == "on_board_exclusion_conflict"));
}

#[test]
fn reference_only_possible_rename_is_a_conflict() {
    let design = ExportedDesign {
        components: vec![resistor("R2", "/sheet/existing")],
        skipped: Vec::new(),
    };
    let plan = plan(
        "netlist",
        &design,
        &board_with(vec![board_resistor("R1", None)]),
    );

    assert_eq!(plan.status, PlanStatus::Conflict);
    assert!(plan
        .diagnostics
        .iter()
        .any(|diagnostic| diagnostic.code == "reference_only_rename_ambiguous"));
}

#[test]
fn empty_and_duplicate_component_exports_are_rejected() {
    let empty = parse_exported_netlist(&tree("(export (components) (nets))"))
        .unwrap_err()
        .message();
    assert!(empty.contains("zero components"), "{empty}");

    let duplicate = r#"
(export
  (components
    (comp (ref "R1") (value "1k") (footprint "Resistor_SMD:R_0603_1608Metric")
      (sheetpath (tstamps "/one/")) (tstamps "one"))
    (comp (ref "R1") (value "2k") (footprint "Resistor_SMD:R_0603_1608Metric")
      (sheetpath (tstamps "/two/")) (tstamps "two")))
  (nets))
"#;
    let duplicate = parse_exported_netlist(&tree(duplicate)).unwrap_err().message();
    assert!(
        duplicate.contains("duplicate component reference R1"),
        "{duplicate}"
    );
}

#[test]
fn plan_revision_changes_when_reviewed_board_bounds_change() {
    let design = ExportedDesign {
        components: vec![resistor("R1", "/sheet/new")],
        skipped: Vec::new(),
    };
    let first = plan("netlist", &design, &board_with(Vec::new()));
    let mut changed_board = board_with(Vec::new());
    changed_board.bounds.max_x = mm(11.0);
    let second = plan("netlist", &design, &changed_board);

    assert_ne!(first.plan_revision, second.plan_revision);
}

#[test]
fn plan_revision_ignores_the_export_timestamp_and_tool_version() {
    let netlist = |date: &str, tool: &str| {
        format!(
            "(export (version \"E\")
  (design
    (source \"/tmp/x.kicad_sch\")
    (date \"{date}\")
    (tool \"{tool}\")
  )
  (components
    (comp (ref \"R1\")
      (value \"10k\")
      (footprint \"Resistor_SMD:R_0805\")
      (tstamps \"/aaa\")))
  (nets
    (net (code \"1\") (name \"GND\")
      (node (ref \"R1\") (pin \"1\")))))
"
        )
    };
    let board = BoardState {
        footprints: Vec::new(),
        routed_nets: TextMap::new(),
        bounds: Bounds { min_x: 0, min_y: 0, max_x: 0, max_y: 0 },
    };
    let a = revision(&netlist("2026-08-15T14:48:16", "kicad-cli (10.0.5)"), &board);
    let b = revision(&netlist("2026-08-15T14:48:18", "kicad-cli (10.0.5)"), &board);
    assert_eq!(a, b, "two seconds apart is not a design change");

    let c = revision(&netlist("2026-08-15T14:48:16", "kicad-cli (10.1.0)"), &board);
    assert_eq!(a, c, "a KiCad upgrade is not a design change");

    // A real change still moves it, or the guard is worthless.
    let changed = netlist("2026-08-15T14:48:16", "kicad-cli (10.0.5)")
        .replace("Resistor_SMD:R_0805", "Resistor_SMD:R_0603");
    assert_ne!(
        a,
        revision(&changed, &board),
        "a footprint swap must move the revision"
    );
}

#[test]
fn plan_revision_keeps_nested_and_quoted_design_content() {
    let netlist = |nested_date: &str, value: &str| {
        format!(
            r#"(export
  (design (date "2026-08-15T14:48:16") (tool "kicad-cli (10.0.5)"))
  (components
    (comp (ref "R1")
      (value "{value}")
      (footprint "Resistor_SMD:R_0805")
      (date "{nested_date}")
      (tstamps "/aaa")))
  (nets
    (net (code "1") (name "GND")
      (node (ref "R1") (pin "1")))))"#
        )
    };
    let board = board_with(Vec::new());
    let baseline = revision(&netlist("2025-01-01", "literal (tool alpha)"), &board);

    assert_ne!(
        baseline,
        revision(&netlist("2025-01-02", "literal (tool alpha)"), &board),
        "a nested date node is component content, not export metadata"
    );
    assert_ne!(
        baseline,
        revision(&netlist("2025-01-01", "literal (tool beta)"), &board),
        "tool-like text inside a quoted value is design content"
    );
}

// ─── Exact values and every refusal ───────────────────────────────────────────

#[test]
fn identity_bytes_are_length_prefixed() {
    let mut bytes = Vec::new();
    append_identity_bytes("ab".as_bytes(), &mut bytes);
    assert_eq!(bytes, vec![2, 0, 0, 0, 0, 0, 0, 0, b'a', b'b']);

    let mut bytes = Vec::new();
    append_sexp_identity(&tree("(x \"y\")"), &mut bytes);
    assert_eq!(
        bytes,
        vec![
            2, 2, 0, 0, 0, 0, 0, 0, 0, //
            0, 1, 0, 0, 0, 0, 0, 0, 0, b'x', //
            1, 1, 0, 0, 0, 0, 0, 0, 0, b'y'
        ]
    );

    // Without a tree the identity is the source itself; without the two
    // sections it is two zeros.
    assert_eq!(netlist_identity("abc", &None), b"abc".to_vec());
    assert_eq!(netlist_identity("x", &Some(tree("(export)"))), vec![0, 0]);
}

#[test]
fn revisions_are_sha256_sums() {
    // The bytes that are summed: "netlist", then the bounds.
    let board = board_with(Vec::new());
    assert_eq!(
        revision("netlist", &board),
        "4d399b3cc65b858fe401c0c5032342715f60b5c17402323a830845889e83fadb"
    );
    let mut full = board_with(vec![
        board_resistor("R2", None),
        board_resistor("R1", Some("/sheet/existing")),
    ]);
    full.routed_nets = counts(&[("VCC", 258)]);
    assert_eq!(
        revision("netlist", &full),
        "2388c99581e4d5fc43436ee97c75c5b42417e6acd76ce1c3e00e2e9342040289"
    );

    let mut staged = plan("netlist", &ExportedDesign { components: Vec::new(), skipped: Vec::new() }, &board);
    refresh_revision_with_staging(&mut staged, b"[]");
    assert_eq!(
        staged.plan_revision,
        "9c9ba71f5d4d2265878ccdfabb2ddabc6d8e5f9707fc58dc6f410183531d3cec"
    );
}

#[test]
fn the_order_of_footprints_does_not_change_the_revision() {
    let board = |names: &[&str]| {
        board_with(names.iter().map(|name| board_resistor(name, Some("/sheet"))).collect())
    };
    let sorted = revision("netlist", &board(&["R1", "R2", "R3"]));
    assert_eq!(revision("netlist", &board(&["R3", "R1", "R2"])), sorted);
    assert_eq!(revision("netlist", &board(&["R2", "R3", "R1"])), sorted);
    assert_ne!(revision("netlist", &board(&["R1", "R2"])), sorted);
}

#[test]
fn every_broken_netlist_is_refused_by_name() {
    let refusal = |text: &str| parse_exported_netlist(&tree(text)).unwrap_err();
    assert_eq!(refusal("(export)"), NetlistError::NoComponents);
    assert_eq!(
        refusal("(export)").message(),
        "KiCad netlist has no components section"
    );
    assert_eq!(
        refusal("(export (components (comp (value \"1k\"))))").message(),
        "KiCad netlist node is missing ref"
    );
    assert_eq!(
        refusal("(export (components (comp (ref \"R1\") (value \"1k\") (footprint \"A:B\") (tstamps \"one\"))))"),
        NetlistError::NoSheetTimestamp
    );
    assert_eq!(
        refusal("(export (components (comp (ref \"R1\") (value \"1k\") (footprint \"A:B\") (sheetpath (tstamps \"/\")))))"),
        NetlistError::NoSymbolTimestamp
    );
    let component = "(components (comp (ref \"R1\") (value \"1k\") (footprint \"A:B\") (sheetpath (tstamps \"/\")) (tstamps \"one\")))";
    assert_eq!(
        refusal(&format!("(export {component} (nets (net (name \"N\") (node (ref \"R9\") (pin \"1\")))))"))
            .message(),
        "net N refers to unknown component R9"
    );
    assert_eq!(
        refusal(&format!(
            "(export {component} (nets (net (name \"A\") (node (ref \"R1\") (pin \"1\"))) (net (name \"B\") (node (ref \"R1\") (pin \"1\")))))"
        ))
        .message(),
        "component R1 pad 1 appears in more than one net"
    );
    assert_eq!(required_value(&tree("(a (b \"c\"))"), "b"), Ok("c".to_string()));
}

#[test]
fn the_root_sheet_path_is_the_symbol_alone() {
    let text = "(export (components (comp (ref \"R1\") (value \"1k\") (footprint \"A:B\") (sheetpath (tstamps \"/\")) (tstamps \"one\"))))";
    let design = parse_exported_netlist(&tree(text)).unwrap();
    assert_eq!(design.components[0].symbol_path, "/one");
    assert_eq!(design.skipped.len(), 0);
}

#[test]
fn fields_and_paths_survive_a_round_through_the_board() {
    let item = footprint_with_artwork("U2");
    let written = apply_footprint_fields(
        item,
        "U7",
        "LM358",
        "/sheet/symbol",
        true,
        &nets(&[("1", "VCC")]),
        &codes(&[("VCC", 3)]),
    )
    .unwrap();
    assert_eq!(
        written.symbol_path,
        Some(vec!["sheet".to_string(), "symbol".to_string()])
    );
    assert_eq!(sheet_path_string(written.symbol_path.as_ref().unwrap()), "/sheet/symbol");
    let read = snapshot_footprint(&written).unwrap();
    assert_eq!(read.reference, "U7");
    assert_eq!(read.value, "LM358");
    assert_eq!(read.symbol_path.as_deref(), Some("/sheet/symbol"));
    assert_eq!(read.footprint_id, "Package_SO:SOIC-8_3.9x4.9mm_P1.27mm");
    assert_eq!(read.pad_nets, nets(&[("1", "VCC")]));
    assert_eq!(read.kiid, "u2-kiid");
    assert_eq!(read.position, Point { x: mm(25.0), y: mm(30.0) });
    assert!(read.dnp);
    assert!(!read.not_in_schematic);
    assert_eq!(snapshot_footprints(&vec![written]).unwrap(), vec![read]);
}

#[test]
fn a_field_is_given_its_name_and_text() {
    let mut one = None;
    assert_eq!(field_text(&one), "");
    set_field_text(&mut one, "Reference", "R4");
    assert_eq!(one, field("Reference", "R4"));
    assert_eq!(field_text(&one), "R4");
}

#[test]
fn every_refused_footprint_change_says_why() {
    let mut bare = footprint_with_artwork("U1");
    bare.definition = None;
    assert_eq!(
        update_footprint_item(bare, &artwork_change(), &TextMap::new()),
        Err(FootprintError::NoDefinition)
    );
    let mut strange = footprint_with_artwork("U1");
    strange.id = Some("another".to_string());
    let error = update_footprint_item(strange, &artwork_change(), &TextMap::new()).unwrap_err();
    assert_eq!(
        error.message(),
        "planned footprint u1-kiid no longer matches the live board item"
    );
    let error = apply_footprint_fields(
        footprint_with_artwork("U1"),
        "U1",
        "NE555",
        "/u1",
        false,
        &nets(&[("9", "VCC")]),
        &TextMap::new(),
    )
    .unwrap_err();
    assert_eq!(error.message(), "footprint U1 has no pad 9");
    let addition = PlannedChange::Add {
        reference: "R1".to_string(),
        value: "1k".to_string(),
        footprint_id: "A:B".to_string(),
        symbol_path: "/a".to_string(),
        dnp: false,
        pad_nets: TextMap::new(),
        position: Point { x: 0, y: 0 },
    };
    let error =
        update_footprint_item(footprint_with_artwork("U1"), &addition, &TextMap::new()).unwrap_err();
    assert_eq!(error.message(), "an add change cannot update an existing footprint");
}

#[test]
fn an_unknown_net_is_left_to_its_name() {
    let updated = apply_footprint_fields(
        footprint_with_artwork("U1"),
        "U1",
        "NE555",
        "/u1",
        false,
        &nets(&[("1", "NEW")]),
        &codes(&[("GND", 1)]),
    )
    .unwrap();
    assert_eq!(
        updated.definition.unwrap().items[0],
        FootprintChild::Pad {
            number: "1".to_string(),
            net: Some(PadNet { code: None, name: "NEW".to_string() }),
        }
    );
    let _ = FootprintAttributes { do_not_populate: false, not_in_schematic: false };
}

fn two_additions() -> SyncPlan {
    let design = ExportedDesign {
        components: vec![resistor("R1", "/a"), resistor("R2", "/b")],
        skipped: Vec::new(),
    };
    plan("netlist", &design, &board_with(Vec::new()))
}

fn places(plan: &SyncPlan) -> Vec<(i64, i64)> {
    plan.changes
        .iter()
        .filter_map(|change| match change {
            PlannedChange::Add { position, .. } => Some((position.x, position.y)),
            _ => None,
        })
        .collect()
}

#[test]
fn additions_are_staged_beside_the_board_by_their_size() {
    let mut plan = two_additions();
    assert_eq!(plan.status, PlanStatus::Ready);
    let mut prepared = TextMap::new();
    prepared.insert(
        "Resistor_SMD:R_0603_1608Metric".to_string(),
        Extent { width: 4_000_000, height: 2_000_000 },
    );
    let bounds = Bounds { min_x: 0, min_y: mm(1.0), max_x: mm(10.0), max_y: mm(10.0) };
    restage_additions(&mut plan, &prepared, bounds);
    // 10 + 5 + 4/2 across; 1 + 2/2 and then 2 + 5 further down.
    assert_eq!(places(&plan), vec![(mm(17.0), mm(2.0)), (mm(17.0), mm(9.0))]);

    // Without a prepared size a footprint takes ten millimetres.
    let mut plan = two_additions();
    restage_additions(&mut plan, &TextMap::new(), bounds);
    assert_eq!(places(&plan), vec![(mm(20.0), mm(6.0)), (mm(20.0), mm(21.0))]);
    assert_eq!(
        footprints_to_prepare(&plan.changes),
        vec!["Resistor_SMD:R_0603_1608Metric".to_string()]
    );
}

#[test]
fn only_the_reviewed_revision_is_applied() {
    let mut plan = two_additions();
    let reviewed = Some(plan.plan_revision.clone());
    assert_eq!(decide_apply(&mut plan, true, &None), SyncStep::Report);
    assert_eq!(decide_apply(&mut plan, false, &reviewed), SyncStep::Apply);
    assert_eq!(plan.status, PlanStatus::Ready);
    let before = plan.counts;
    assert_eq!(
        decide_apply(&mut plan, false, &Some("another".to_string())),
        SyncStep::Report
    );
    assert_eq!(plan.status, PlanStatus::Conflict);
    assert!(plan.changes.is_empty());
    assert_eq!(plan.diagnostics[0].code, "stale_plan_revision");
    assert_eq!(plan.counts.conflicts.planned, 1);
    assert_eq!(plan.counts.added, before.added);
    assert_eq!(plan.counts.added.planned, 2);
    assert_eq!(plan.counts.updated, before.updated);
    assert_eq!(plan.counts.pads_reassigned, before.pads_reassigned);
    assert_eq!(plan.counts.board_only_preserved, before.board_only_preserved);
    assert_eq!(plan.counts.skipped_by_flag, before.skipped_by_flag);

    assert!(request_names_revision(true, &None));
    assert!(!request_names_revision(false, &None));
    assert!(request_names_revision(false, &reviewed));
    assert_eq!(status_text(PlanStatus::Ready), "ready");
    assert_eq!(status_text(PlanStatus::Noop), "noop");
    assert_eq!(status_text(PlanStatus::Conflict), "conflict");
}

#[test]
fn an_applied_plan_counts_what_it_did() {
    let mut plan = two_additions();
    record_applied(&mut plan, &vec!["R1: 2 pads became 1".to_string()]);
    assert_eq!(plan.counts.added.applied, 2);
    assert_eq!(plan.diagnostics[0].code, "board_readback_differs");
    assert!(plan.diagnostics[0].message.contains("R1: 2 pads became 1"));

    let mut plan = two_additions();
    refuse_preparation(&mut plan, "no such library".to_string());
    assert_eq!(plan.status, PlanStatus::Conflict);
    assert!(plan.changes.is_empty());
    assert_eq!(plan.counts.conflicts.planned, 1);
}

#[test]
fn a_change_without_its_footprint_is_an_error() {
    let plan = two_additions();
    let mut prepared = TextMap::new();
    assert_eq!(
        build_mutation_items(&plan.changes, &prepared, &Vec::new()),
        Err(MutationError::NotPrepared {
            footprint_id: "Resistor_SMD:R_0603_1608Metric".to_string()
        })
    );
    prepared.insert(
        "Resistor_SMD:R_0603_1608Metric".to_string(),
        Extent { width: 1_000_000, height: 1_000_000 },
    );
    let items = build_mutation_items(&plan.changes, &prepared, &Vec::new()).unwrap();
    assert_eq!(items.creates, vec![0, 1]);
    assert!(items.updates.is_empty());
    let error = build_mutation_items(&vec![artwork_change()], &prepared, &Vec::new()).unwrap_err();
    assert_eq!(error.message(), "planned footprint u1-kiid disappeared");
    let items =
        build_mutation_items(&vec![artwork_change()], &prepared, &vec!["u1-kiid".to_string()])
            .unwrap();
    assert_eq!(items.updates, vec![0]);
}

#[test]
fn zones_route_every_net_of_the_board() {
    let tracks = vec![Some("VCC".to_string()), None, Some("VCC".to_string())];
    let routed = count_routed_nets(&tracks, false, &codes(&[("GND", 1)]));
    assert_eq!(routed, counts(&[("VCC", 2)]));
    let routed = count_routed_nets(&tracks, true, &codes(&[("GND", 1), ("VCC", 2)]));
    assert!(routed.contains_key("GND"));
    assert!(routed.contains_key("VCC"));
}

#[test]
fn duplicate_and_unknown_footprints_conflict() {
    let design = || ExportedDesign {
        components: vec![resistor("R1", "/sheet/existing")],
        skipped: Vec::new(),
    };
    let twice = plan(
        "netlist",
        &design(),
        &board_with(vec![
            board_resistor("R1", Some("/sheet/existing")),
            BoardFootprint {
                kiid: "second".to_string(),
                ..board_resistor("R1", Some("/sheet/existing"))
            },
        ]),
    );
    assert_eq!(twice.status, PlanStatus::Conflict);
    assert!(twice.changes.is_empty());
    assert_eq!(twice.counts.conflicts.planned, twice.diagnostics.len());
    assert!(!twice.diagnostics.is_empty());
}

#[test]
fn an_applied_plan_leaves_nothing_to_do() {
    // The board as the additions of a plan leave it.
    let design = ExportedDesign {
        components: vec![resistor("R1", "/a"), resistor("R2", "/b")],
        skipped: Vec::new(),
    };
    let board = board_with(vec![
        board_resistor("R1", Some("/a")),
        board_resistor("R2", Some("/b")),
    ]);
    let again = plan("netlist", &design, &board);
    assert_eq!(again.status, PlanStatus::Noop);
    assert!(again.changes.is_empty());
}

fn child(file: &str) -> ChildSheet {
    ChildSheet::File { file: file.to_string() }
}

fn readable(children: Vec<ChildSheet>) -> SheetFile {
    SheetFile { has_name: true, locked: false, children: Ok(children) }
}

fn disk(files: Vec<(&str, SheetFile)>) -> TextMap<SheetFile> {
    let mut map = TextMap::new();
    for (file, sheet) in files {
        map.insert(file.to_string(), sheet);
    }
    map
}

fn walk(files: Vec<(&str, SheetFile)>) -> Result<Vec<String>, HierarchyError> {
    saved_hierarchy_files("/p/root", &disk(files))
}

#[test]
fn a_hierarchy_lists_each_file_once_from_the_root_down() {
    let files = walk(vec![
        ("/p/root", readable(vec![child("/p/z"), child("/p/a"), child("/p/shared")])),
        ("/p/a", readable(vec![child("/p/shared"), child("/p/shared")])),
        ("/p/z", readable(vec![child("/p/shared")])),
        ("/p/shared", readable(Vec::new())),
        ("/p/apart", SheetFile { has_name: true, locked: true, children: Ok(Vec::new()) }),
    ]);
    assert_eq!(files.unwrap(), vec!["/p/root", "/p/z", "/p/shared", "/p/a"]);
}

#[test]
fn a_hierarchy_with_a_fault_is_refused_with_its_first() {
    let message = |files: Vec<(&str, SheetFile)>| walk(files).unwrap_err().message();
    assert_eq!(
        message(vec![
            ("/p/root", readable(vec![child("/p/a")])),
            ("/p/a", readable(vec![child("/p/root")])),
        ]),
        "schematic hierarchy contains a cycle at /p/root"
    );
    let locked = || SheetFile { has_name: true, locked: true, children: Ok(Vec::new()) };
    let held = "/p/a is open in the schematic editor; save and close the hierarchy before syncing";
    assert_eq!(
        message(vec![("/p/root", readable(vec![child("/p/a")])), ("/p/a", locked())]),
        held
    );
    assert_eq!(refuse_locked("/p/a", true).as_deref(), Some(held));
    assert_eq!(refuse_locked("/p/a", false), None);
    assert_eq!(
        message(vec![(
            "/p/root",
            SheetFile { has_name: true, locked: false, children: Err("torn".to_string()) }
        )]),
        "cannot load schematic /p/root: torn"
    );
    assert_eq!(
        message(vec![(
            "/p/root",
            SheetFile { has_name: false, locked: false, children: Ok(Vec::new()) }
        )]),
        "schematic path has no file name"
    );
    assert_eq!(
        message(vec![(
            "/p/root",
            readable(vec![ChildSheet::Missing { shown: "/p/gone".to_string() }, child("/p/a")])
        )]),
        "hierarchical sheet /p/gone referenced by /p/root does not exist"
    );
    assert_eq!(
        message(vec![(
            "/p/root",
            readable(vec![ChildSheet::Unresolved {
                shown: "/p/odd".to_string(),
                cause: "denied".to_string()
            }])
        )]),
        "cannot resolve schematic /p/odd: denied"
    );
    assert_eq!(message(Vec::new()), "cannot load schematic /p/root");
}

#[test]
fn symbols_off_the_board_are_skipped_and_dnp_is_taken_over() {
    let sheet = |on_board: &str, dnp: &str| {
        tree(&format!(
            r#"(kicad_sch (uuid "root")
  (symbol (lib_id "Device:R") (uuid "one") (in_bom yes) (on_board {on_board}) (dnp {dnp})
    (property "Reference" "R1")
    (instances (project "p" (path "/root" (reference "R1") (unit 1))))))"#
        ))
    };
    let design = || ExportedDesign {
        components: vec![resistor("R1", "/one")],
        skipped: Vec::new(),
    };
    let mut dnp = design();
    apply_saved_symbol_flags(&vec![sheet("yes", "yes")], &mut dnp).unwrap();
    assert_eq!(dnp.components.len(), 1);
    assert!(dnp.components[0].dnp);

    let mut off = design();
    apply_saved_symbol_flags(&vec![sheet("no", "no")], &mut off).unwrap();
    assert_eq!(off.components.len(), 0);
    assert_eq!(off.skipped.len(), 1);
    assert_eq!(off.skipped[0].reference, "R1");

    let mut torn = design();
    let error =
        apply_saved_symbol_flags(&vec![sheet("yes", "no"), sheet("yes", "yes")], &mut torn)
            .unwrap_err();
    assert_eq!(error.reference, "R1");
    assert!(error.message().contains("R1"));
}
