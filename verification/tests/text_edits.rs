//! Edits of schematic text.

use konnect_core::field_placement::{
    set_property_placement, PlacementEdits, PlacementRefusal, PlacementText,
};
use konnect_core::page::{oriented, paper_dimensions, paper_sizes, set_page};
use konnect_core::property_edit::{
    property_insert_edit, rewrite_instance_references, set_property_value, PropertyEdits,
};
use konnect_core::property_text::{
    closing_quote, escape_property_text, is_reserved_property, TextEdit,
};
use konnect_core::replacement::{
    plan_replacement, refuse_replacement, refuse_units, unit_count_of,
};
use konnect_core::text_map::TextMap;
use konnect_core::tool_error::ToolErrorKind;

#[test]
fn paper_table_is_landscape_and_unique() {
    let sizes = paper_sizes();
    let mut names: Vec<_> = sizes.iter().map(|size| size.name).collect();
    let count = names.len();
    names.sort_unstable();
    names.dedup();
    assert_eq!(names.len(), count, "duplicate paper size name");
    for size in &sizes {
        assert!(
            size.width > size.height,
            "{} is listed portrait; the table is landscape",
            size.name
        );
    }
}

// ─── Paper ────────────────────────────────────────────────────────────────────

const WITH_PAPER: &str =
    "(kicad_sch\n  (version 20260306)\n  (uuid \"root\")\n  (paper \"A4\")\n  (symbol)\n)\n";
const NO_PAPER: &str = "(kicad_sch\n  (version 20260306)\n  (uuid \"root\")\n  (symbol)\n)\n";

fn applied(content: &str, edits: &[TextEdit]) -> String {
    let mut sorted: Vec<&TextEdit> = edits.iter().collect();
    sorted.sort_by_key(|edit| edit.start);
    let mut text = content.to_string();
    for edit in sorted.into_iter().rev() {
        text.replace_range(edit.start..edit.end, &edit.text);
    }
    text
}

fn with_page(content: &str, size: &str, portrait: bool) -> String {
    applied(content, &[set_page(content, size, portrait)])
}

#[test]
fn a_paper_node_is_replaced() {
    let out = with_page(WITH_PAPER, "A2", false);
    assert!(out.contains("(paper \"A2\")"), "got {out}");
    assert!(!out.contains("A4"), "old size must be gone: {out}");
    assert_eq!(out.matches("(paper").count(), 1);
}

#[test]
fn a_missing_paper_node_goes_into_the_header() {
    let out = with_page(NO_PAPER, "A3", false);
    assert!(out.contains("(paper \"A3\")"), "got {out}");
    assert!(out.find("(paper").unwrap() < out.find("(symbol").unwrap());
    assert!(out.find("(uuid").unwrap() < out.find("(paper").unwrap());
}

#[test]
fn a_portrait_page_is_marked_on_the_node() {
    let out = with_page(WITH_PAPER, "A3", true);
    assert!(out.contains("(paper \"A3\" portrait)"), "got {out}");
}

#[test]
fn papers_have_their_sizes_and_others_are_refused() {
    assert_eq!(paper_dimensions("A4"), Ok((297_000_000, 210_000_000)));
    assert_eq!(paper_dimensions("USLetter"), Ok((279_400_000, 215_900_000)));
    assert_eq!(oriented((297, 210), true), (210, 297));
    assert_eq!(oriented((297, 210), false), (297, 210));
    let error = paper_dimensions("A9").unwrap_err();
    assert!(matches!(
        &error.kind,
        Some(ToolErrorKind::InvalidArgument { field, .. }) if field == "size"
    ));
    assert!(error.message.contains("A9"), "{}", error.message);
    assert!(error.message.contains("USLedger"), "{}", error.message);
}

// ─── Property text ────────────────────────────────────────────────────────────

#[test]
fn reserved_names_are_known() {
    for name in ["Reference", "Value", "Footprint", "Datasheet"] {
        assert!(is_reserved_property(name), "{name}");
    }
    assert!(!is_reserved_property("MPN"));
}

#[test]
fn escaped_text_ends_at_its_quotation_mark() {
    assert_eq!(escape_property_text("A\\\"B"), "A\\\\\\\"B");
    assert_eq!(escape_property_text("plain"), "plain");
    for value in ["", "a\"b", "back\\", "\\\"", "line\nbreak"] {
        let text = format!("{}\" rest", escape_property_text(value));
        assert_eq!(closing_quote(&text, 0), Some(text.len() - 6), "{value:?}");
    }
    assert_eq!(closing_quote("open", 0), None);
}

// ─── Properties of placed symbols ─────────────────────────────────────────────

/// One R1, with an instances path, as eeschema writes it.
const SCH: &str = "(kicad_sch\n\t(version 20250610)\n\t(generator \"eeschema\")\n\t(uuid \"root\")\n\t(lib_symbols\n\t\t(symbol \"Device:R\"\n\t\t\t(property \"Reference\" \"R\" (at 0 0 0))\n\t\t)\n\t)\n\t(symbol\n\t\t(lib_id \"Device:R\")\n\t\t(at 50 60 0)\n\t\t(unit 1)\n\t\t(uuid \"sym-1\")\n\t\t(property \"Reference\" \"R1\"\n\t\t\t(at 52 58 0)\n\t\t)\n\t\t(property \"Value\" \"10k\"\n\t\t\t(at 52 62 0)\n\t\t)\n\t\t(instances\n\t\t\t(project \"proj\"\n\t\t\t\t(path \"/root\"\n\t\t\t\t\t(reference \"R1\") (unit 1)\n\t\t\t\t)\n\t\t\t)\n\t\t)\n\t)\n\t(sheet_instances\n\t\t(path \"/\" (page \"1\"))\n\t)\n)\n";

/// The end of the list that starts at a position.
fn list_end(content: &str, start: usize) -> usize {
    let bytes = content.as_bytes();
    let (mut depth, mut quoted, mut at) = (0, false, start);
    loop {
        match bytes[at] {
            b'\\' if quoted => at += 1,
            b'"' => quoted = !quoted,
            b'(' if !quoted => depth += 1,
            b')' if !quoted => {
                depth -= 1;
                if depth == 0 {
                    return at + 1;
                }
            }
            _ => {}
        }
        at += 1;
    }
}

/// The ranges of the placed symbols with this reference.
fn blocks(content: &str, reference: &str) -> Vec<(usize, usize)> {
    let mut list = Vec::new();
    let mut from = 0;
    while let Some(found) = content[from..].find("\n\t(symbol\n") {
        let start = from + found + 2;
        let end = list_end(content, start);
        if content[start..end].contains(&format!("(property \"Reference\" \"{reference}\"")) {
            list.push((start, end));
        }
        from = end;
    }
    list
}

/// How the numbers of these texts are written.
fn numbers() -> TextMap<String> {
    let mut map = TextMap::new();
    for token in [
        "0", "1", "2", "10", "50", "52", "58", "60", "62", "90", "100", "102", "118", "120", "122",
        "98", "180",
    ] {
        map.insert(token.to_string(), token.to_string());
    }
    map
}

fn set(content: &str, reference: &str, field: &str, value: &str, add: bool) -> Result<PropertyEdits, String> {
    set_property_value(content, &blocks(content, reference), reference, field, value, add, &numbers())
}

#[test]
fn a_property_is_replaced_in_place() {
    let edits = set(SCH, "R1", "Value", "22k", false).unwrap();
    assert_eq!((edits.counts.updated, edits.counts.added), (1, 0));
    let out = applied(SCH, &edits.edits);
    assert_eq!(out, SCH.replace("\"10k\"", "\"22k\""));
}

#[test]
fn a_missing_custom_field_is_added_to_its_symbol() {
    let edits = set(SCH, "R1", "MPN", "RC0402FR-0710KL", true).unwrap();
    assert_eq!((edits.counts.updated, edits.counts.added), (0, 1));
    let out = applied(SCH, &edits.edits);
    assert_eq!(out.matches("(property \"MPN\" \"RC0402FR-0710KL\"").count(), 1, "{out}");
    assert!(out.contains("(hide yes)"), "a custom field is data: {out}");
    // It stands at its symbol, not at the origin of the sheet.
    let at = out.find("(property \"MPN\"").unwrap();
    let property = &out[at..list_end(&out, at)];
    assert!(property.contains("(at 50 60 0)"), "{property}");

    // A second time it is updated, not added again.
    let edits = set(&out, "R1", "MPN", "second", true).unwrap();
    assert_eq!((edits.counts.updated, edits.counts.added), (1, 0));
    let again = applied(&out, &edits.edits);
    assert_eq!(again.matches("(property \"MPN\"").count(), 1, "{again}");
    assert!(!again.contains("RC0402FR"), "{again}");
}

#[test]
fn a_missing_built_in_field_or_symbol_is_refused() {
    let error = set(SCH, "R1", "Footprint", "A:B", false).unwrap_err();
    assert!(error.contains("'Footprint'") && error.contains("R1"), "{error}");
    let error = set(SCH, "R9", "Value", "1k", false).unwrap_err();
    assert_eq!(error, "symbol 'R9' not found in this schematic");
}

#[test]
fn a_value_is_escaped_where_it_is_written() {
    let edits = set(SCH, "R1", "Value", "A\\\"B", false).unwrap();
    let out = applied(SCH, &edits.edits);
    assert!(out.contains("(property \"Value\" \"A\\\\\\\"B\""), "{out}");
}

#[test]
fn a_property_follows_the_indentation_of_its_file() {
    let (start, end) = blocks(SCH, "R1")[0];
    let edit = property_insert_edit(SCH, "R1", start, end, "MPN", "x", &numbers()).unwrap();
    assert_eq!(edit.start, edit.end);
    let out = applied(SCH, &[edit]);
    let line = out.lines().find(|line| line.contains("\"MPN\"")).unwrap();
    assert!(line.starts_with("\t\t(property"), "{line:?}");
}

#[test]
fn a_rename_reaches_the_instance_paths() {
    let edits = set(SCH, "R1", "Reference", "R7", false).unwrap();
    let renamed = applied(SCH, &edits.edits);
    let paths =
        rewrite_instance_references(&renamed, &blocks(&renamed, "R7"), "R1", "R7").unwrap();
    let out = applied(&renamed, &paths);
    assert!(out.contains("(property \"Reference\" \"R7\""), "{out}");
    assert!(out.contains("(reference \"R7\")"), "{out}");
    assert!(!out.contains("(reference \"R1\")"), "{out}");

    let error = rewrite_instance_references(SCH, &Vec::new(), "R1", "R7").unwrap_err();
    assert_eq!(error, "symbol 'R1' not found after the rename");
    let error = rewrite_instance_references(SCH, &blocks(SCH, "R1"), "R5", "R1").unwrap_err();
    assert!(error.contains("netlist still reads the old designator"), "{error}");
}

// ─── Placements of fields ─────────────────────────────────────────────────────

fn place(
    content: &str,
    reference: &str,
    field: &str,
    placement: PlacementText,
    unit: Option<u32>,
) -> Result<PlacementEdits, PlacementRefusal> {
    let ranges = blocks(content, reference);
    let ends = ranges
        .iter()
        .map(|&(start, end)| {
            content[start..end]
                .find(&format!("(property \"{field}\""))
                .map(|at| list_end(content, start + at))
        })
        .collect();
    set_property_placement(content, &ranges, &ends, reference, field, &placement, unit, &numbers())
}

fn to(x: Option<&str>, y: Option<&str>, rotation: Option<&str>, hide: Option<bool>) -> PlacementText {
    PlacementText {
        x: x.map(String::from),
        y: y.map(String::from),
        rotation: rotation.map(String::from),
        hide,
    }
}

#[test]
fn a_field_is_moved_and_keeps_its_value() {
    let done = place(SCH, "R1", "Value", to(Some("12.5"), Some("34.5"), Some("90"), None), None).unwrap();
    assert_eq!(done.touched, 1);
    let out = applied(SCH, &done.edits);
    assert_eq!(out, SCH.replace("(at 52 62 0)", "(at 12.5 34.5 90)"));

    // What is not asked for stays as the file has it.
    let done = place(SCH, "R1", "Value", to(None, None, Some("90"), None), None).unwrap();
    assert_eq!(applied(SCH, &done.edits), SCH.replace("(at 52 62 0)", "(at 52 62 90)"));
}

#[test]
fn a_field_is_hidden_and_shown_again() {
    let done = place(SCH, "R1", "Value", to(None, None, None, Some(true)), None).unwrap();
    let hidden = applied(SCH, &done.edits);
    assert_eq!(hidden.matches("(hide yes)").count(), 1, "{hidden}");

    // Hiding it again writes no second token.
    let again = place(&hidden, "R1", "Value", to(None, None, None, Some(true)), None).unwrap();
    assert_eq!(applied(&hidden, &again.edits).matches("(hide yes)").count(), 1);

    let done = place(&hidden, "R1", "Value", to(None, None, None, Some(false)), None).unwrap();
    assert_eq!(applied(&hidden, &done.edits), SCH);
}

#[test]
fn a_field_that_says_it_is_shown_is_hidden() {
    let hide = |text: &str| {
        let done = place(text, "R1", "Value", to(None, None, None, Some(true)), None).unwrap();
        applied(text, &done.edits)
    };
    let shown = SCH.replace("(at 52 62 0)", "(at 52 62 0)\n\t\t\t(hide no)");
    assert_ne!(shown, SCH);
    assert_eq!(hide(&shown), shown.replace("(hide no)", "(hide yes)"));

    // Every flag of the field says the same afterwards.
    let torn = SCH.replace("(at 52 62 0)", "(at 52 62 0) (hide yes) (effects (hide no))");
    assert_eq!(hide(&torn), torn.replace("(hide no)", "(hide yes)"));
    let done = place(&torn, "R1", "Value", to(None, None, None, Some(false)), None).unwrap();
    let out = applied(&torn, &done.edits);
    assert!(!out.contains("(hide "), "{out}");
    assert!(out.contains("(effects"), "{out}");

    // A flag that hides already stays as it is spelled.
    for flag in ["(hide yes )", "(hide  yes)", "(hide \tyes)", "(hide \"yes\")", "(hide yes more)"] {
        let spelled = SCH.replace("(at 52 62 0)", &format!("(at 52 62 0) {flag}"));
        assert_eq!(hide(&spelled), spelled, "{flag}");
    }
    // Any other word gives way, also inside a flag that stays.
    for flag in ["(hide no)", "(hide yesterday)", "(hide \"no\")", "(hide )"] {
        let other = SCH.replace("(at 52 62 0)", &format!("(at 52 62 0) {flag}"));
        assert_eq!(hide(&other), other.replace(flag, "(hide yes)"), "{flag}");
    }
    let nested = SCH.replace("(at 52 62 0)", "(at 52 62 0) (hide yes (hide no))");
    assert_eq!(hide(&nested), nested.replace("(hide no)", "(hide yes)"));

    // A value that reads like a flag is none.
    let quoted = SCH.replace("\"10k\"", "\"(hide yes)\"");
    assert_eq!(hide(&quoted).matches("(hide yes)").count(), 2);
    let quoted = SCH.replace("\"10k\"", "\"(hide no)\"");
    let out = hide(&quoted);
    assert!(out.contains("\"(hide no)\"") && out.contains("(hide yes)"), "{out}");
}

#[test]
fn a_field_on_one_line_is_hidden_where_it_stands() {
    let text = "(kicad_sch\n\t(symbol (lib_id \"Device:R\") (at 10 10 0) (unit 1) (property \"Reference\" \"R1\" (at 1 2 0)))\n)\n";
    let block = text.find("(symbol").unwrap();
    let property = text.find("(property").unwrap();
    let done = set_property_placement(
        text,
        &vec![(block, list_end(text, block))],
        &vec![Some(list_end(text, property))],
        "R1",
        "Reference",
        &to(None, None, None, Some(true)),
        None,
        &numbers(),
    )
    .unwrap();
    let out = applied(text, &done.edits);
    let words = |text: &str| text.split_whitespace().collect::<String>();
    assert_eq!(words(&out.replace("(hide yes)", "")), words(text));
    assert_eq!(out.matches("(hide yes)").count(), 1, "{out}");
    assert_eq!(out.matches("(property").count(), 1, "{out}");
}

#[test]
fn a_flag_without_an_end_is_refused() {
    let start = "(kicad_sch (symbol (unit 1) (property \"Value\" \"10k\" (at 1 2 0) (hide no";
    let ends = vec![Some(start.len())];
    let ranges = vec![(11, start.len())];
    let hide = to(None, None, None, Some(true));
    let refusal = set_property_placement(
        start, &ranges, &ends, "R1", "Value", &hide, None, &numbers(),
    )
    .unwrap_err();
    assert!(matches!(refusal, PlacementRefusal::MalformedFile(_)), "{refusal:?}");
}

#[test]
fn showing_a_field_keeps_its_neighbour_on_the_line() {
    let text = "(kicad_sch\n\t(uuid \"u\")\n\t(lib_symbols)\n\t(symbol\n\t\t(lib_id \"Device:R\")\n\t\t(at 10 10 0)\n\t\t(unit 1)\n\t\t(uuid \"s\")\n\t\t(property \"Reference\" \"R1\"\n\t\t\t(at 1 2 0) (hide yes)\n\t\t\t(effects (font (size 1 1)))\n\t\t)\n\t)\n)\n";
    let done = place(text, "R1", "Reference", to(None, None, None, Some(false)), None).unwrap();
    let out = applied(text, &done.edits);
    assert!(out.contains("(at 1 2 0)"), "{out}");
    assert!(!out.contains("(hide yes)"), "{out}");
    assert!(out.contains("(effects (font (size 1 1)))"), "{out}");
}

#[test]
fn a_value_that_looks_like_a_placement_is_left_alone() {
    let text = SCH.replace("\"10k\"", "\"mounted (at 45 deg) (hide yes)\"");
    let done = place(&text, "R1", "Value", to(Some("11"), Some("22"), None, Some(false)), None).unwrap();
    let out = applied(&text, &done.edits);
    assert!(out.contains("\"mounted (at 45 deg) (hide yes)\""), "{out}");
    assert!(out.contains("(at 11 22 0)"), "{out}");
}

#[test]
fn a_malformed_placement_is_refused_by_its_number() {
    let text = SCH.replace("(at 52 62 0)", "(at bad 62 0)");
    let refusal = place(&text, "R1", "Value", to(None, None, Some("0"), None), None).unwrap_err();
    assert!(matches!(refusal, PlacementRefusal::MalformedFile(_)));
    assert!(
        refusal.reason().contains("non-numeric x") && refusal.reason().contains("bad"),
        "{}",
        refusal.reason()
    );
}

#[test]
fn a_missing_field_symbol_or_unit_refuses_that_field_only() {
    let moved = || to(Some("1"), Some("2"), None, None);
    for (reference, field, unit) in
        [("R9", "Value", None), ("R1", "MPN", None), ("R1", "Value", Some(7))]
    {
        let refusal = place(SCH, reference, field, moved(), unit).unwrap_err();
        assert!(matches!(refusal, PlacementRefusal::TargetMissing(_)), "{refusal:?}");
    }
}

#[test]
fn only_the_named_unit_is_moved() {
    let second = "\t(symbol\n\t\t(lib_id \"Device:R\")\n\t\t(at 100 120 180)\n\t\t(unit 2)\n\t\t(uuid \"sym-2\")\n\t\t(property \"Reference\" \"R1\"\n\t\t\t(at 100 118 0)\n\t\t)\n\t\t(property \"Value\" \"10k\"\n\t\t\t(at 100 122 0)\n\t\t)\n\t)\n";
    let text = SCH.replace("\t(sheet_instances", &format!("{second}\t(sheet_instances"));
    assert_eq!(blocks(&text, "R1").len(), 2);
    let done = place(&text, "R1", "Value", to(Some("10"), Some("10"), None, None), Some(2)).unwrap();
    assert_eq!(done.touched, 1);
    let out = applied(&text, &done.edits);
    assert_eq!(out.matches("(at 10 10 ").count(), 1);
    assert!(out.contains("(at 52 62 0)"), "unit 1 stays put: {out}");

    // A shared value reaches both units.
    let edits = set(&text, "R1", "Value", "NEW", false).unwrap();
    assert_eq!(edits.counts.updated, 2);
    assert_eq!(applied(&text, &edits.edits).matches("(property \"Value\" \"NEW\"").count(), 2);
    // A field that only one unit has is filled in for the other.
    let note = text.replacen("\t\t(instances", "\t\t(property \"Note\" \"OLD\"\n\t\t\t(at 52 62 0)\n\t\t)\n\t\t(instances", 1);
    let edits = set(&note, "R1", "Note", "NEW", true).unwrap();
    assert_eq!((edits.counts.updated, edits.counts.added), (1, 1));
    assert_eq!(applied(&note, &edits.edits).matches("(property \"Note\" \"NEW\"").count(), 2);
}

// ─── Replacing the library symbol ─────────────────────────────────────────────

#[test]
fn a_replacement_changes_the_library_name_and_the_unit() {
    let plan = plan_replacement(SCH, &blocks(SCH, "R1"), "R1", "Device:R_US", None).unwrap();
    assert_eq!(plan.old_lib_id, "Device:R");
    let out = applied(SCH, &plan.edits);
    assert_eq!(out, SCH.replace("(lib_id \"Device:R\")", "(lib_id \"Device:R_US\")"));

    let plan = plan_replacement(SCH, &blocks(SCH, "R1"), "R1", "Device:R", Some(2)).unwrap();
    let out = applied(SCH, &plan.edits);
    assert!(out.contains("(unit 2)") && !out.contains("(unit 1)"), "{out}");
}

#[test]
fn a_replacement_is_refused_where_it_cannot_be_meant() {
    assert!(refuse_replacement("R1", 0, None).unwrap().contains("R1"));
    assert_eq!(refuse_replacement("R1", 2, None), None);
    assert_eq!(refuse_replacement("R1", 1, Some(2)), None);
    assert!(refuse_replacement("U1", 2, Some(1)).unwrap().contains("U1"));

    assert_eq!(refuse_units("U1", "Device:OPAMP_DUAL", Some(3), &vec![1], 3), None);
    let refusal = refuse_units("U1", "Device:OPAMP_DUAL", Some(99), &vec![1], 3).unwrap();
    assert!(refusal.contains("3 unit"), "{refusal}");
    assert!(refuse_units("U1", "Device:R", None, &vec![1, 2], 1).is_some());
    assert_eq!(refuse_units("U1", "Device:R", None, &vec![1], 1), None);
    assert_eq!(unit_count_of(&vec![1, 3, 2]), 3);
    assert_eq!(unit_count_of(&Vec::new()), 1);
}
