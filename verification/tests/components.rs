//! Binding a change to the units of a component and reading it back.

use konnect_core::deletion::{
    indexed_uuid_items, IndexedSchematicItem, PlacedInstance, TopLevelBlock,
};
use konnect_core::intent::{
    placement_landed, verified_component_readback, verify_component_mutation_intents,
    ComponentMutationIntent, ComponentTarget, ComponentTargetUnit, FieldPlacement,
};
use konnect_core::listing::{describe_component, list_components, ListedComponent, UnitPins};
use konnect_core::pin_locations::{
    component_units, mirror_axes, pin_locations_for_reference, EmbeddedDefinition, PinEnd,
    UnitPlace,
};
use konnect_core::placement::{
    check_unit_in_range, hides_reference, mirror_arg, placed_component_readback,
    placement_properties, MirrorAxis, NewProperty, PlacementFields, SheetInstanceContext,
    SymbolMetadata, TextArgument,
};
use konnect_core::readback::{
    component_mutation_readback_from_schematic, ObservedPlacement, ReadSchematic,
};
use konnect_core::sexp::SexpNode;
use konnect_core::symbol::{
    checked_instance_paths, field_hidden, FieldAt, InstanceRecord, SheetSymbol, SymbolProperty,
};
use konnect_core::target::{component_target_from_source, SourceInstance};
use konnect_core::text_map::TextMap;
use konnect_core::tool_error::{ComponentDeleteTargetError, ToolError, ToolErrorKind};

const PATH: &str = "/work/multi.kicad_sch";

fn nm(millimetres: f64) -> i64 {
    (millimetres * 1_000_000.0).round() as i64
}

fn read_node(chars: &[char], at: &mut usize) -> SexpNode {
    let skip = |at: &mut usize| {
        while chars[*at].is_whitespace() {
            *at += 1;
        }
    };
    skip(at);
    match chars[*at] {
        '(' => {
            *at += 1;
            let mut children = Vec::new();
            loop {
                skip(at);
                if chars[*at] == ')' {
                    *at += 1;
                    return SexpNode::List(children);
                }
                children.push(read_node(chars, at));
            }
        }
        '"' => {
            *at += 1;
            let mut value = String::new();
            while chars[*at] != '"' {
                value.push(chars[*at]);
                *at += 1;
            }
            *at += 1;
            SexpNode::Str(value)
        }
        _ => {
            let mut value = String::new();
            while !chars[*at].is_whitespace() && !"()\"".contains(chars[*at]) {
                value.push(chars[*at]);
                *at += 1;
            }
            SexpNode::Atom(value)
        }
    }
}

fn tree(text: &str) -> SexpNode {
    let chars: Vec<char> = text.chars().collect();
    let mut at = 0;
    read_node(&chars, &mut at)
}

fn copy(node: &SexpNode) -> SexpNode {
    match node {
        SexpNode::Atom(value) => SexpNode::Atom(value.clone()),
        SexpNode::Str(value) => SexpNode::Str(value.clone()),
        SexpNode::List(children) => SexpNode::List(children.iter().map(copy).collect()),
    }
}

fn number(node: &SexpNode, index: usize) -> Option<i64> {
    node.str_at(index).map(|text| nm(text.parse().unwrap()))
}

fn records(node: &SexpNode) -> Vec<InstanceRecord> {
    let mut list = Vec::new();
    for instances in node.find_all("instances") {
        for project in instances.find_all("project") {
            for path in project.find_all("path") {
                let record = InstanceRecord {
                    project: project.str_at(1).map(String::from),
                    path: path.str_at(1).map(String::from),
                    reference: path.find_str("reference").map(String::from),
                    unit: path.find_str("unit").map(|unit| unit.parse().unwrap()),
                    label: format!("{:?}", path.str_at(1)),
                };
                list.push(record);
            }
        }
    }
    list
}

fn symbol(node: &SexpNode) -> SheetSymbol {
    let at = node.find("at").unwrap();
    let mut properties = Vec::new();
    for property in node.find_all("property") {
        let SexpNode::List(children) = property else {
            unreachable!()
        };
        let place = property.find("at").map(|at| FieldAt {
            x: number(at, 1).unwrap(),
            y: number(at, 2).unwrap(),
            rotation: number(at, 3),
        });
        properties.push(SymbolProperty {
            name: property.str_at(1).unwrap().to_string(),
            value: property.str_at(2).unwrap().to_string(),
            at: place,
            nodes: children.iter().skip(3).map(copy).collect(),
        });
    }
    let instances = records(node);
    let path_references = instances.iter().map(|record| record.reference.clone()).collect();
    SheetSymbol {
        uuid: node.find_str("uuid").unwrap().to_string(),
        lib_id: node.find_str("lib_id").unwrap().to_string(),
        unit: node.find_str("unit").unwrap().parse().unwrap(),
        x: number(at, 1).unwrap(),
        y: number(at, 2).unwrap(),
        rotation: number(at, 3),
        mirror: node.find_str("mirror").map(String::from),
        properties,
        instances,
        path_references,
    }
}

/// A schematic text as the library takes it.
struct Sheet {
    items: Result<TextMap<IndexedSchematicItem>, ComponentDeleteTargetError>,
    sources: Vec<SourceInstance>,
    schematic: ReadSchematic,
}

fn blocks(root: &SexpNode) -> Vec<TopLevelBlock> {
    let SexpNode::List(children) = root else {
        unreachable!()
    };
    children
        .iter()
        .filter(|child| matches!(child, SexpNode::List(_)))
        .map(|child| TopLevelBlock { node: Ok(copy(child)), source: format!("{child:?}") })
        .collect()
}

fn sheet_at(path: &str, text: &str) -> Sheet {
    let root = tree(text);
    let mut sources = Vec::new();
    let mut symbols = Vec::new();
    for node in root.find_all("symbol") {
        let placed = symbol(node);
        sources.push(SourceInstance {
            instance: PlacedInstance {
                reference: placed.property_or_empty("Reference"),
                unit: placed.unit,
                uuid: Some(placed.uuid.clone()),
                lib_id: placed.lib_id.clone(),
                x: placed.x,
                y: placed.y,
                rotation: placed.rotation.unwrap_or(0),
            },
            node: Ok(copy(node)),
            symbol: Ok(placed),
        });
        symbols.push(symbol(node));
    }
    Sheet {
        items: indexed_uuid_items(path, &blocks(&root)),
        sources,
        schematic: ReadSchematic {
            filepath: path.to_string(),
            blocks: blocks(&root),
            symbols,
        },
    }
}

fn sheet(text: &str) -> Sheet {
    sheet_at(PATH, text)
}

fn target(sheet: &Sheet, reference: &str) -> Result<ComponentTarget, ComponentDeleteTargetError> {
    component_target_from_source(PATH, sheet.items.as_ref().unwrap(), &sheet.sources, reference)
}

fn kind(error: &ToolError) -> &'static str {
    match &error.kind {
        Some(ToolErrorKind::AmbiguousTarget { .. }) => "ambiguous_target",
        Some(ToolErrorKind::StaleTarget { .. }) => "stale_target",
        Some(ToolErrorKind::InvalidArgument { .. }) => "invalid_argument",
        None => "none",
    }
}

const SCHEMATIC: &str = r#"(kicad_sch
  (version 20260306)
  (uuid "11111111-1111-4111-8111-111111111111")
  (symbol
    (lib_id "Test:DUAL")
    (at 100 100 0)
    (unit 1)
    (uuid "22222222-2222-4222-8222-222222222222")
    (property "Reference" "U1" (at 100 98 0))
    (property "Value" "OLD" (at 100 102 0))
    (property "Footprint" "" (at 100 100 0))
    (property "Datasheet" "" (at 100 100 0))
    (property "Note" "OLD" (at 100 100 0) (hide yes))
    (instances
      (project "multi"
        (path "/11111111-1111-4111-8111-111111111111"
          (reference "U1")
          (unit 1)
        )
      )
    )
  )
  (symbol
    (lib_id "Test:DUAL")
    (at 100 120 180)
    (unit 2)
    (uuid "33333333-3333-4333-8333-333333333333")
    (property "Reference" "U1" (at 100 118 0))
    (property "Value" "OLD" (at 100 122 0))
    (property "Footprint" "" (at 100 120 0))
    (property "Datasheet" "" (at 100 120 0))
    (instances
      (project "multi"
        (path "/11111111-1111-4111-8111-111111111111"
          (reference "U1")
          (unit 2)
        )
      )
    )
  )
  (sheet_instances (path "/" (page "1")))
)
"#;

/// A dual triode placed as its units 2 and 3. The properties are given as
/// pairs, those of the first unit and those of the second.
fn triode_with(first: &[(&str, &str)], second: &[(&str, &str)]) -> String {
    let unit = |unit: u32, uuid: &str, y: &str, fields: &[(&str, &str)]| {
        let fields: String = fields
            .iter()
            .map(|(name, value)| format!("(property \"{name}\" \"{value}\" (at 10 20 0)) "))
            .collect();
        format!(
            "(symbol (lib_id \"ecc83-pp:ECC83\") (at 130.81 {y} 0) (unit {unit}) (uuid \"{uuid}\")
               (property \"Reference\" \"U1\" (at 1 2 0)) {fields}
               (instances (project \"ecc83\" (path \"/4b1395f1\" (reference \"U1\") (unit {unit})))))"
        )
    };
    format!(
        "(kicad_sch (version 20260306) (uuid \"4b1395f1\") {} {})",
        unit(2, "u-two", "81.28", first),
        unit(3, "u-three", "101.6", second)
    )
}

const PLAIN: &[(&str, &str)] = &[("Value", "ECC83"), ("Footprint", "ecc83-pp:NOVAL"), ("Datasheet", "")];

fn triode() -> String {
    triode_with(PLAIN, PLAIN)
}

fn native_readback_intent_mismatch(field: &str) {
    let before = sheet(&triode());
    let bound = target(&before, "U1").unwrap();
    assert!(verified_component_readback(PATH, true, &before.schematic, &bound).is_ok());
    // The identifiers and the reference stay. Every unit's hierarchy changes
    // together, so that the comparison with what was bound has to see it.
    let text = triode();
    let changed = match field {
        "unit" => text.replace("(unit 2)", "(unit 12)").replace("(unit 3)", "(unit 13)"),
        "lib_id" => text.replace("ecc83-pp:ECC83", "Device:WRONG"),
        "x" => text.replace("(at 130.81 ", "(at 132.08 "),
        "y" => text.replace(" 81.28 ", " 82.55 ").replace(" 101.6 ", " 102.87 "),
        "rotation" => text.replace("81.28 0)", "81.28 90)").replace("101.6 0)", "101.6 90)"),
        "mirror" => text.replace("(unit 2) (uuid", "(mirror y) (unit 2) (uuid"),
        "project" => text.replace("(project \"ecc83\"", "(project \"wrong-project\""),
        "path" => text.replace("(path \"/4b1395f1\"", "(path \"/wrong/path\""),
        _ => unreachable!(),
    };
    assert_ne!(changed, text);
    let error =
        verified_component_readback(PATH, true, &sheet(&changed).schematic, &bound).unwrap_err();
    assert_eq!(kind(&error), "stale_target", "{field}: {error:?}");
}

#[test]
fn native_readback_intent_unit() {
    native_readback_intent_mismatch("unit");
}

#[test]
fn native_readback_intent_library() {
    native_readback_intent_mismatch("lib_id");
}

#[test]
fn native_readback_intent_x() {
    native_readback_intent_mismatch("x");
}

#[test]
fn native_readback_intent_y() {
    native_readback_intent_mismatch("y");
}

#[test]
fn native_readback_intent_rotation() {
    native_readback_intent_mismatch("rotation");
}

#[test]
fn native_readback_intent_mirror() {
    native_readback_intent_mismatch("mirror");
}

#[test]
fn native_readback_intent_project() {
    native_readback_intent_mismatch("project");
}

#[test]
fn native_readback_intent_path() {
    native_readback_intent_mismatch("path");
}

fn one_field(name: &str, value: &str) -> TextMap<String> {
    let mut fields = TextMap::new();
    fields.insert(name.to_string(), value.to_string());
    fields
}

#[test]
fn native_readback_intent_requested_properties() {
    for field in ["Value", "Footprint", "Datasheet", "MPN", "Group"] {
        let bound = target(&sheet(&triode()), "U1")
            .unwrap()
            .with_fields(&one_field(field, "requested-value"));
        let with = |value: &'static str| {
            let mut fields: Vec<(&str, &str)> =
                PLAIN.iter().copied().filter(|(name, _)| *name != field).collect();
            fields.push((field, value));
            fields
        };
        let wanted = triode_with(&with("requested-value"), &with("requested-value"));
        assert!(verified_component_readback(PATH, true, &sheet(&wanted).schematic, &bound).is_ok());
        let wrong = triode_with(&with("wrong-value"), &with("requested-value"));
        let error =
            verified_component_readback(PATH, true, &sheet(&wrong).schematic, &bound).unwrap_err();
        assert_eq!(kind(&error), "stale_target", "{field}");
    }
}

#[test]
fn native_readback_instance_conflicts() {
    for corruption in ["project", "duplicate", "unit", "cross-unit"] {
        let text = triode();
        let bound = target(&sheet(&text), "U1").unwrap();
        let own = "(project \"ecc83\" (path \"/4b1395f1\" (reference \"U1\") (unit 2)))";
        let changed = match corruption {
            "project" => text.replace(
                own,
                &format!("{own} {}", own.replace("ecc83", "other-project")),
            ),
            "unit" => text.replace(own, &own.replace("(unit 2)", "(unit 3)")),
            "cross-unit" => text.replace(own, &own.replace("/4b1395f1", "/other/path")),
            "duplicate" => text.replace(
                &format!("(instances {own})"),
                &format!("(instances {own}) (instances {own})"),
            ),
            _ => unreachable!(),
        };
        assert_ne!(changed, text);
        let read = sheet(&changed);
        if corruption != "cross-unit" {
            let error = checked_instance_paths(PATH, &read.schematic.symbols[0])
                .unwrap_err()
                .into_result();
            assert_eq!(kind(&error), "ambiguous_target", "{corruption}");
        }
        let error =
            verified_component_readback(PATH, true, &read.schematic, &bound).unwrap_err();
        assert_eq!(kind(&error), "ambiguous_target", "{corruption}");
        let preflight = target(&read, "U1").unwrap_err().into_result();
        assert_eq!(kind(&preflight), "ambiguous_target", "{corruption}");
    }
}

#[test]
fn placement_landed_compares_only_what_was_requested() {
    let seen = Some(ObservedPlacement {
        x: nm(10.0),
        y: nm(20.0),
        rotation: nm(90.0),
        hide: false,
    });
    let want = |x: Option<f64>, y: Option<f64>, rotation: Option<f64>, hide| FieldPlacement {
        x: x.map(nm),
        y: y.map(nm),
        rotation: rotation.map(nm),
        hide,
    };
    assert!(placement_landed(seen, &want(Some(10.0), None, None, None)));
    assert!(placement_landed(seen, &want(None, None, None, Some(false))));
    assert!(placement_landed(seen, &want(None, None, None, None)));
    assert!(!placement_landed(seen, &want(Some(10.5), None, None, None)));
    assert!(!placement_landed(seen, &want(None, Some(21.0), None, None)));
    assert!(!placement_landed(seen, &want(None, None, Some(0.0), None)));
    assert!(!placement_landed(seen, &want(None, None, None, Some(true))));
    // A field the readback never saw cannot be reported as placed.
    assert!(!placement_landed(None, &want(Some(10.0), None, None, None)));
}

fn readback(
    same_document: bool,
    sheet: &Sheet,
    uuids: &[String],
    reference: Option<&str>,
) -> Result<konnect_core::readback::ObservedComponent, ToolError> {
    component_mutation_readback_from_schematic(
        PATH,
        same_document,
        &sheet.schematic,
        &uuids.to_vec(),
        reference,
    )
}

#[test]
fn shared_readback_refuses_missing_or_renamed_bound_identity() {
    let committed = sheet(SCHEMATIC);
    let bound = target(&committed, "U1").unwrap();

    let wrong_reference = readback(true, &committed, &bound.uuids(), Some("U404")).unwrap_err();
    assert_eq!(kind(&wrong_reference), "stale_target");

    let missing_uuid =
        readback(true, &committed, &["missing-uuid".to_owned()], None).unwrap_err();
    assert_eq!(kind(&missing_uuid), "stale_target");
}

#[test]
fn shared_readback_refuses_wrong_document_and_mismatched_fields() {
    let committed = sheet(SCHEMATIC);
    let bound = target(&committed, "U1").unwrap();

    let wrong_document = readback(false, &committed, &bound.uuids(), Some("U1")).unwrap_err();
    assert_eq!(kind(&wrong_document), "stale_target");

    let mismatched_field = verified_component_readback(
        PATH,
        true,
        &committed.schematic,
        &bound.with_fields(&one_field("Value", "NOT-COMMITTED")),
    )
    .unwrap_err();
    assert_eq!(kind(&mismatched_field), "stale_target");
}

#[test]
fn shared_readback_reports_the_committed_models_document_path() {
    let committed = sheet(SCHEMATIC);
    let bound = target(&committed, "U1").unwrap();
    let differently_spelled = "/work/./multi.kicad_sch";
    assert_ne!(differently_spelled, committed.schematic.filepath);

    let observed = component_mutation_readback_from_schematic(
        differently_spelled,
        true,
        &committed.schematic,
        &bound.uuids(),
        Some("U1"),
    )
    .unwrap();

    assert_eq!(observed.schematic, committed.schematic.filepath);
    assert_ne!(observed.schematic, differently_spelled);
}

#[test]
fn duplicate_bound_uuid_and_property_identities_are_ambiguous() {
    let uuid = "22222222-2222-4222-8222-222222222222".to_owned();
    let committed = sheet(SCHEMATIC);
    let duplicate_bound_uuid =
        readback(true, &committed, &[uuid.clone(), uuid.clone()], Some("U1")).unwrap_err();
    assert_eq!(kind(&duplicate_bound_uuid), "ambiguous_target");

    let property = "    (property \"Note\" \"OLD\" (at 100 100 0) (hide yes))\n";
    let duplicate_source = SCHEMATIC.replacen(property, &format!("{property}{property}"), 1);
    assert_ne!(duplicate_source, SCHEMATIC);
    let duplicate_property =
        readback(true, &sheet(&duplicate_source), &[uuid], Some("U1")).unwrap_err();
    assert_eq!(kind(&duplicate_property), "ambiguous_target");
}

#[test]
fn placement_field_resolution_preserves_empty_library_footprints_and_old_value_fallback() {
    let metadata = SymbolMetadata {
        value: String::new(),
        footprint: String::new(),
        datasheet: String::new(),
        description: String::new(),
    };
    let fields = PlacementFields::resolve("Device:R", &metadata, None, None);
    assert_eq!(fields.value, "R");
    assert_eq!(fields.footprint, "");

    let fields = PlacementFields::resolve(
        "Device:R",
        &metadata,
        Some("10k"),
        Some("Resistor_THT:R_Axial"),
    );
    assert_eq!(fields.value, "10k");
    assert_eq!(fields.footprint, "Resistor_THT:R_Axial");
}

// ─── Exact values and every refusal ───────────────────────────────────────────

#[test]
fn the_library_defaults_are_taken_over() {
    let metadata = SymbolMetadata {
        value: "Library Default".to_string(),
        footprint: "Package_DIP:DIP-8_W7.62mm".to_string(),
        datasheet: String::new(),
        description: String::new(),
    };
    let fields = PlacementFields::resolve("Device:WITH_DEFAULTS", &metadata, None, None);
    assert_eq!(fields.value, "Library Default");
    assert_eq!(fields.footprint, "Package_DIP:DIP-8_W7.62mm");
    let fields = PlacementFields::resolve("Device:WITH_DEFAULTS", &metadata, Some(""), Some(""));
    assert_eq!(fields.value, "");
    assert_eq!(fields.footprint, "");
}

#[test]
fn a_readback_reports_what_the_file_holds() {
    let committed = sheet(SCHEMATIC);
    let bound = target(&committed, "U1").unwrap();
    let observed =
        verified_component_readback(PATH, true, &committed.schematic, &bound).unwrap();
    assert_eq!(observed.reference, "U1");
    assert_eq!(observed.value, "OLD");
    assert_eq!(observed.units.len(), 2);
    let unit = &observed.units[1];
    assert_eq!(unit.uuid, "33333333-3333-4333-8333-333333333333");
    assert_eq!((unit.unit, unit.x, unit.y), (2, nm(100.0), nm(120.0)));
    assert_eq!(unit.rotation, nm(180.0));
    assert!(!unit.mirror_x && !unit.mirror_y);
    assert_eq!(
        unit.instance_paths,
        vec![(
            "multi".to_string(),
            "/11111111-1111-4111-8111-111111111111".to_string()
        )]
    );
    assert_eq!(unit.instance_references, vec!["U1".to_string()]);
    let note = observed.units[0].field_placements.get("Note").unwrap();
    assert_eq!(
        *note,
        ObservedPlacement { x: nm(100.0), y: nm(100.0), rotation: 0, hide: true }
    );
    assert_eq!(observed.units[0].fields.get("Note").unwrap(), "OLD");
    assert!(observed.units[1].fields.get("Note").is_none());
}

#[test]
fn a_target_holds_every_unit_with_its_fields() {
    let bound = target(&sheet(SCHEMATIC), "U1").unwrap();
    assert_eq!(bound.reference, "U1");
    assert_eq!(bound.units.len(), 2);
    assert_eq!(bound.units[0].lib_id, "Test:DUAL");
    assert_eq!(bound.units[0].fields.get("Value").unwrap(), "OLD");
    let changed = bound.with_fields(&one_field("Value", "NEW"));
    assert_eq!(changed.units[0].fields.get("Value").unwrap(), "NEW");
    assert_eq!(changed.units[1].fields.get("Value").unwrap(), "NEW");
    assert_eq!(changed.uuids(), bound.uuids());
}

#[test]
fn a_missing_or_torn_component_is_not_bound() {
    let read = sheet(SCHEMATIC);
    let missing = target(&read, "MISSING").unwrap_err().into_result();
    assert_eq!(kind(&missing), "stale_target");

    let twice = SCHEMATIC.replacen("    (unit 2)\n", "    (unit 1)\n", 1);
    assert_ne!(twice, SCHEMATIC);
    let error = target(&sheet(&twice), "U1").unwrap_err().into_result();
    assert_eq!(kind(&error), "ambiguous_target");

    let shared = SCHEMATIC.replace(
        "33333333-3333-4333-8333-333333333333",
        "22222222-2222-4222-8222-222222222222",
    );
    let error = sheet(&shared).items.unwrap_err().into_result();
    assert_eq!(kind(&error), "ambiguous_target");
    assert!(error
        .message
        .starts_with("cannot safely resolve schematic UUID 22222222"));

    let broken = vec![TopLevelBlock {
        node: Err("unbalanced".to_string()),
        source: "(symbol".to_string(),
    }];
    let error = indexed_uuid_items(PATH, &broken).unwrap_err().into_result();
    assert_eq!(error.message, "cannot safely resolve /work/multi.kicad_sch: unbalanced");
}

#[test]
fn instance_records_must_agree_with_the_symbol() {
    let read = sheet(SCHEMATIC);
    assert_eq!(
        checked_instance_paths(PATH, &read.schematic.symbols[0]).unwrap(),
        vec![(
            "multi".to_string(),
            "/11111111-1111-4111-8111-111111111111".to_string()
        )]
    );
    let renamed = SCHEMATIC.replacen("(reference \"U1\")", "(reference \"U2\")", 1);
    let error = checked_instance_paths(PATH, &sheet(&renamed).schematic.symbols[0]).unwrap_err();
    assert_eq!(kind(&error.into_result()), "stale_target");
    let bare = SCHEMATIC.replacen("(reference \"U1\")", "", 1);
    let error = checked_instance_paths(PATH, &sheet(&bare).schematic.symbols[0]).unwrap_err();
    assert!(error.into_result().message.contains("incomplete instance metadata"));
}

#[test]
fn an_intent_without_placements_is_verified_by_its_target() {
    let read = sheet(SCHEMATIC);
    let intents = vec![ComponentMutationIntent::new(target(&read, "U1").unwrap())];
    let observed =
        verify_component_mutation_intents(PATH, true, &read.schematic, &intents, "committed")
            .unwrap();
    assert_eq!(observed.len(), 1);

    let wanted = FieldPlacement { x: Some(nm(1.0)), y: None, rotation: None, hide: None };
    let intents = vec![ComponentMutationIntent::new(target(&read, "U1").unwrap())
        .with_field_placements(vec![("Value".to_string(), wanted)], Some(1))];
    let error =
        verify_component_mutation_intents(PATH, true, &read.schematic, &intents, "committed")
            .unwrap_err();
    assert!(error.message.contains("Value"), "{error:?}");

    let there = FieldPlacement { x: Some(nm(100.0)), y: Some(nm(102.0)), rotation: None, hide: None };
    let intents = vec![ComponentMutationIntent::new(target(&read, "U1").unwrap())
        .with_field_placements(vec![("Value".to_string(), there)], Some(1))];
    assert!(verify_component_mutation_intents(PATH, true, &read.schematic, &intents, "committed")
        .is_ok());
}

#[test]
fn a_field_is_hidden_by_its_own_word_or_by_its_effects() {
    let nodes = |text: &str| match tree(text) {
        SexpNode::List(list) => list,
        _ => unreachable!(),
    };
    assert!(field_hidden(&nodes("((at 0 0 0) (hide yes))")));
    assert!(field_hidden(&nodes("((at 0 0 0) (effects (font (size 1 1)) (hide yes)))")));
    assert!(!field_hidden(&nodes("((at 0 0 0) (effects (hide no)))")));
    assert!(!field_hidden(&nodes("((at 0 0 0) (hide no))")));
    assert!(!field_hidden(&nodes("((at 0 0 0))")));
}

fn unit_place(unit: u32, x: i64, definition: Option<EmbeddedDefinition>) -> UnitPlace {
    UnitPlace {
        reference: "U1".to_string(),
        unit,
        x,
        y: 0,
        rotation: 0,
        definition_name: "Test:DUAL".to_string(),
        definition,
    }
}

fn pin(number: &str) -> PinEnd {
    PinEnd {
        number: number.to_string(),
        name: "A".to_string(),
        x: 0,
        y: 0,
        orientation: 0,
        length: nm(2.54),
    }
}

#[test]
fn pins_are_located_unit_by_unit() {
    let full = |numbers: &[&str]| {
        Some(EmbeddedDefinition {
            extends: None,
            pins: numbers.iter().map(|number| pin(number)).collect(),
        })
    };
    let places = vec![
        unit_place(2, 20, full(&["5", "6"])),
        unit_place(1, 10, full(&["1"])),
        unit_place(1, 30, full(&[])),
    ];
    let found = pin_locations_for_reference(&places, "U1").unwrap();
    assert_eq!(found.anchor, 1);
    assert_eq!(found.units, vec![0, 1, 2]);
    assert_eq!(found.pins, vec![(0, 0), (0, 1), (1, 0)]);

    assert_eq!(
        pin_locations_for_reference(&places, "U9").unwrap_err(),
        "Component 'U9' not found"
    );
    assert_eq!(
        pin_locations_for_reference(&vec![unit_place(3, 0, None)], "U1").unwrap_err(),
        "Component 'U1' unit 3 has no embedded definition for 'Test:DUAL' in this schematic's lib_symbols — re-add it with a valid lib_id"
    );
    let stub = Some(EmbeddedDefinition {
        extends: Some("BASE".to_string()),
        pins: Vec::new(),
    });
    assert_eq!(
        pin_locations_for_reference(&vec![unit_place(1, 0, stub)], "U1").unwrap_err(),
        "Component 'U1' unit 1: the embedded definition for 'Test:DUAL' is an (extends \"BASE\") stub with no pins — re-add the component so the definition is embedded in full"
    );
}

#[test]
fn the_anchor_is_the_first_of_the_least_units() {
    let read = sheet(SCHEMATIC);
    let found = component_units(&read.schematic.symbols, "U1").unwrap();
    assert_eq!(found.anchor, 0);
    assert_eq!(found.units, vec![0, 1]);
    assert_eq!(
        component_units(&read.schematic.symbols, "R1").unwrap_err(),
        "Component 'R1' not found"
    );
    assert_eq!(mirror_axes(&Some("xy".to_string())), (true, true));
    assert_eq!(mirror_axes(&Some("y".to_string())), (false, true));
    assert_eq!(mirror_axes(&None), (false, false));
}

#[test]
fn a_mirror_is_an_axis_or_none() {
    let text = |value: &str| TextArgument::Text(value.to_string());
    assert_eq!(mirror_arg(&TextArgument::Absent, "mirror"), Ok(None));
    assert_eq!(mirror_arg(&text("none"), "mirror"), Ok(None));
    assert_eq!(mirror_arg(&text("x"), "mirror"), Ok(Some(MirrorAxis::X)));
    assert_eq!(mirror_arg(&text("y"), "mirror"), Ok(Some(MirrorAxis::Y)));
    // The refused value is shown quoted and escaped.
    let error = mirror_arg(&text("a\"b"), "mirror").unwrap_err();
    assert_eq!(kind(&error), "invalid_argument");
    assert_eq!(
        error.message,
        "Argument 'mirror' is invalid: expected \"x\", \"y\" or \"none\", got \"a\\\"b\""
    );
    let error = mirror_arg(&TextArgument::Other, "mirror").unwrap_err();
    assert_eq!(kind(&error), "invalid_argument");
    assert_eq!(
        error.message,
        "Argument 'mirror' is invalid: expected a string: \"x\", \"y\" or \"none\""
    );
}

#[test]
fn a_placed_symbol_gets_five_properties() {
    let fields = PlacementFields { value: "10k".to_string(), footprint: "R_0603".to_string() };
    let list = placement_properties(
        "R1",
        &fields,
        "https://example.com/r.pdf",
        "Resistor",
        false,
        (nm(12.0), nm(8.0), nm(90.0)),
        (nm(12.0), nm(13.0), nm(90.0)),
        nm(10.16),
        nm(10.16),
    );
    let property = |name: &str, value: &str, at: (f64, f64, f64), hidden: bool| NewProperty {
        name: name.to_string(),
        value: value.to_string(),
        x: nm(at.0),
        y: nm(at.1),
        rotation: nm(at.2),
        hidden,
    };
    let own = (10.16, 10.16, 0.0);
    assert_eq!(
        list,
        vec![
            property("Reference", "R1", (12.0, 8.0, 90.0), false),
            property("Value", "10k", (12.0, 13.0, 90.0), false),
            property("Footprint", "R_0603", own, true),
            property("Datasheet", "https://example.com/r.pdf", own, true),
            property("Description", "Resistor", own, true),
        ]
    );
    let power = placement_properties("#PWR01", &fields, "", "", true, (0, 0, 0), (0, 0, 0), 0, 0);
    assert!(power[0].hidden && !power[1].hidden);
}

#[test]
fn a_listing_tells_of_every_symbol_with_its_pins() {
    let read = sheet(SCHEMATIC);
    let mut symbols = read.schematic.symbols;
    symbols[1].mirror = Some("x".to_string());
    let units = vec![
        UnitPins { uuid: "elsewhere".to_string(), pins: Vec::new() },
        UnitPins { uuid: symbols[1].uuid.clone(), pins: vec![pin("5"), pin("6")] },
    ];
    let list = list_components(&symbols, &units);
    assert_eq!(list.len(), symbols.len());
    assert_eq!(list[0].pins, None);
    assert_eq!(
        list[1],
        ListedComponent {
            reference: "U1".to_string(),
            value: "OLD".to_string(),
            footprint: symbols[1].property_or_empty("Footprint"),
            lib_id: "Test:DUAL".to_string(),
            x: nm(100.0),
            y: nm(120.0),
            rotation: nm(180.0),
            mirror_x: true,
            mirror_y: false,
            pins: Some(1),
        }
    );
    symbols[0].properties.clear();
    symbols[0].rotation = None;
    let bare = describe_component(&symbols[0], &units);
    assert_eq!((bare.reference.as_str(), bare.value.as_str(), bare.rotation), ("?", "", 0));
}

#[test]
fn a_unit_must_be_one_that_the_symbol_has() {
    assert_eq!(check_unit_in_range(3, "Device:OPAMP_DUAL", 3), Ok(()));
    let error = check_unit_in_range(4, "Device:OPAMP_DUAL", 3).unwrap_err();
    assert!(error.message.contains("OPAMP_DUAL"), "{}", error.message);
}

#[test]
fn power_symbols_hide_their_reference() {
    assert!(hides_reference("power:GND", "#PWR01"));
    assert!(!hides_reference("Device:R", "R1"));
}

#[test]
fn a_placement_is_read_back_from_the_file() {
    let text = SCHEMATIC;
    let read = sheet(text);
    let context = SheetInstanceContext {
        project_name: "multi".to_string(),
        instance_paths: vec!["/11111111-1111-4111-8111-111111111111".to_string()],
    };
    let fields = PlacementFields { value: "OLD".to_string(), footprint: String::new() };
    let expected = |x: f64| {
        ComponentTargetUnit::placement(
            "22222222-2222-4222-8222-222222222222",
            &context,
            "Test:DUAL",
            nm(x),
            nm(100.0),
            0,
            &None,
            "U1",
            &fields,
            1,
        )
    };
    assert_eq!(
        expected(100.0).instances,
        vec![(
            "multi".to_string(),
            "/11111111-1111-4111-8111-111111111111".to_string()
        )]
    );
    let placed =
        placed_component_readback(PATH, true, &read.schematic, expected(100.0), None).unwrap();
    assert_eq!(placed.project, "multi");
    assert_eq!(placed.component.reference, "U1");
    assert_eq!(
        placed.instance_paths,
        vec!["/11111111-1111-4111-8111-111111111111".to_string()]
    );
    let error = placed_component_readback(PATH, true, &read.schematic, expected(101.0), None)
        .unwrap_err();
    assert_eq!(kind(&error), "stale_target");
}
