//! Deleting components and holding the file to it.

use konnect_core::deletion::{
    affected_points, dedup_points, diff_items, find_markers, refuse_empty_selection,
    select_deletions, verify_deletion, IndexedSchematicItem, NoConnect, PinGroup, PlacedInstance,
    TopLevelBlock,
};
use konnect_core::deletion_command::{
    check_command, plan_command, uuids_to_delete, ItemChange,
};
use konnect_core::markers::{no_connect_blocks, pins_or_stale, placed_no_connects};
use konnect_core::sexp::SexpNode;
use konnect_core::text_map::TextMap;
use konnect_core::tool_error::{
    component_delete_commit_refusal, CommitError, ComponentDeleteTargetError, ToolErrorKind,
};

const PATH: &str = "/work/delete.kicad_sch";

fn items(list: &[(&str, &str, &str)]) -> TextMap<IndexedSchematicItem> {
    let mut map = TextMap::new();
    for (uuid, kind, source) in list {
        map.insert(
            uuid.to_string(),
            IndexedSchematicItem { kind: kind.to_string(), source: source.to_string() },
        );
    }
    map
}

fn instance(reference: &str, unit: u32, uuid: Option<&str>) -> PlacedInstance {
    PlacedInstance {
        reference: reference.to_string(),
        unit,
        uuid: uuid.map(String::from),
        lib_id: "Device:R".to_string(),
        x: 0,
        y: 0,
        rotation: 0,
    }
}

fn names(list: &[&str]) -> Vec<String> {
    list.iter().map(|name| name.to_string()).collect()
}

fn sheet() -> TextMap<IndexedSchematicItem> {
    items(&[
        ("a", "symbol", "(a)"),
        ("b", "symbol", "(b)"),
        ("c", "symbol", "(c)"),
        ("j", "junction", "(j)"),
        ("m", "no_connect", "(m)"),
        ("w", "wire", "(w)"),
    ])
}

fn placed() -> Vec<PlacedInstance> {
    vec![
        instance("U1", 2, Some("b")),
        instance("U1", 1, Some("a")),
        instance("R1", 1, Some("c")),
    ]
}

#[test]
fn every_unit_of_a_component_is_selected() {
    let targets =
        select_deletions(PATH, &names(&["U1"]), &names(&["w"]), &sheet(), &placed()).unwrap();
    assert_eq!(targets.label, "U1");
    assert_eq!(targets.unit_uuids, names(&["a", "b"]));
    assert_eq!(targets.item_uuids, names(&["w"]));
    assert_eq!(targets.units_by_reference.len(), 1);
    let targets =
        select_deletions(PATH, &Vec::new(), &names(&["w"]), &sheet(), &placed()).unwrap();
    assert_eq!(targets.label, "selected items");
    assert!(targets.unit_uuids.is_empty());
}

fn refusal(
    references: &[&str],
    uuids: &[&str],
    instances: Vec<PlacedInstance>,
) -> ComponentDeleteTargetError {
    select_deletions(PATH, &names(references), &names(uuids), &sheet(), &instances).unwrap_err()
}

fn reason(error: ComponentDeleteTargetError) -> String {
    match error {
        ComponentDeleteTargetError::Stale { reason, .. } => reason,
        other => panic!("expected a stale target, got {other:?}"),
    }
}

#[test]
fn a_deletion_of_units_needs_every_pin() {
    let groups = || vec![group("u1", &[(1, 2)])];
    let unknown = || Err("pins do not resolve".to_string());
    assert_eq!(pins_or_stale(PATH, &names(&["u1"]), Ok(groups())).unwrap(), groups());
    assert_eq!(
        reason(pins_or_stale(PATH, &names(&["u1"]), unknown()).unwrap_err()),
        "pins do not resolve"
    );
    // Without a unit no pin matters.
    assert_eq!(pins_or_stale(PATH, &names(&[]), unknown()).unwrap(), Vec::new());
    assert_eq!(pins_or_stale(PATH, &names(&[]), Ok(groups())).unwrap(), Vec::new());
}

#[test]
fn the_flags_of_a_file_are_read_in_order() {
    let atom = |text: &str| SexpNode::Atom(text.to_string());
    let block = |kind: &str, uuid: Option<&str>| {
        let mut list = vec![atom(kind)];
        if let Some(uuid) = uuid {
            list.push(SexpNode::List(vec![atom("uuid"), SexpNode::Str(uuid.to_string())]));
        }
        TopLevelBlock { node: Ok(SexpNode::List(list)), source: String::new() }
    };
    let torn = TopLevelBlock { node: Err("torn".to_string()), source: String::new() };
    let blocks = vec![
        block("wire", Some("w")),
        block("no_connect", Some("n1")),
        torn,
        block("no_connect", None),
        block("no_connect", Some("n3")),
    ];
    let flags = no_connect_blocks(&blocks);
    assert_eq!(flags, vec![1, 3, 4]);
    let places = vec![Some((5, 6)), Some((7, 8)), None];
    assert_eq!(
        placed_no_connects(&blocks, &flags, &places),
        vec![
            NoConnect { x: 5, y: 6, uuid: Some("n1".to_string()) },
            NoConnect { x: 7, y: 8, uuid: None },
        ]
    );
}

#[test]
fn every_selection_that_cannot_be_meant_is_refused() {
    assert_eq!(reason(refusal(&[], &[], placed())), "no schematic items were selected");
    assert_eq!(
        reason(refuse_empty_selection(PATH, &names(&[]), &names(&[])).unwrap()),
        "no schematic items were selected"
    );
    assert!(refuse_empty_selection(PATH, &names(&["R1"]), &names(&[])).is_none());
    assert!(refuse_empty_selection(PATH, &names(&[]), &names(&["x"])).is_none());
    assert_eq!(
        reason(refusal(&[], &["x"], placed())),
        "schematic item UUID x is not present"
    );
    assert_eq!(reason(refusal(&["R404"], &[], placed())), "component R404 is not present");
    assert_eq!(
        reason(refusal(&["R2"], &[], vec![instance("R2", 1, None)])),
        "component R2 unit 1 has no UUID"
    );
    assert_eq!(
        reason(refusal(&["R2"], &[], vec![instance("R2", 1, Some("w"))])),
        "UUID w no longer identifies a top-level symbol"
    );
    let twice = vec![instance("R1", 1, Some("a")), instance("R1", 1, Some("b"))];
    assert_eq!(
        refusal(&["R1"], &[], twice),
        ComponentDeleteTargetError::Ambiguous {
            target: "component R1 unit 1".to_string(),
            candidates: names(&["a", "b"]),
        }
    );
    let shared = vec![instance("R1", 1, Some("a")), instance("R1", 2, Some("a"))];
    assert!(matches!(
        refusal(&["R1"], &[], shared),
        ComponentDeleteTargetError::Ambiguous { .. }
    ));
}

#[test]
fn places_are_listed_once() {
    assert_eq!(
        dedup_points(&vec![(0, 0), (5, 0), (20_000, 0), (0, 0)]),
        vec![(0, 0), (20_000, 0)]
    );
}

fn group(uuid: &str, places: &[(i64, i64)]) -> PinGroup {
    PinGroup { uuid: Some(uuid.to_string()), places: places.to_vec() }
}

#[test]
fn markers_go_with_their_pins_unless_another_pin_shares_them() {
    let marker = |x: i64, uuid: Option<&str>| NoConnect { x, y: 0, uuid: uuid.map(String::from) };
    let groups = vec![group("a", &[(0, 0), (1_000_000, 0)]), group("c", &[(1_000_000, 0)])];
    assert_eq!(
        affected_points(&groups, &names(&["a"])),
        vec![(0, 0), (1_000_000, 0)]
    );
    let markers = vec![
        marker(0, Some("gone")),
        marker(1_000_000, Some("shared")),
        marker(9_000_000, Some("unrelated")),
    ];
    assert_eq!(
        find_markers(PATH, &groups, &names(&["a"]), &markers),
        Ok(names(&["gone"]))
    );
    let error = find_markers(PATH, &groups, &names(&["a"]), &vec![marker(0, None)]).unwrap_err();
    assert_eq!(reason(error), "attached no-connect at (0, 0) has no UUID");
    let error = find_markers(
        PATH,
        &vec![group("a", &[(158_750_000, 156_210_000)])],
        &names(&["a"]),
        &vec![NoConnect { x: 158_750_000, y: 156_210_000, uuid: None }],
    )
    .unwrap_err();
    assert_eq!(reason(error), "attached no-connect at (158.75, 156.21) has no UUID");
}

#[test]
fn a_deletion_is_read_back_from_the_file() {
    let targets =
        || select_deletions(PATH, &names(&["U1"]), &names(&["w"]), &sheet(), &placed()).unwrap();
    let after = items(&[("c", "symbol", "(c)"), ("k", "junction", "(k)")]);
    let left = vec![instance("R1", 1, Some("c"))];
    let outcome =
        verify_deletion(PATH, targets(), names(&["m"]), &sheet(), &after, &left).unwrap();
    assert_eq!(outcome.added_junctions, names(&["k"]));
    assert_eq!(outcome.pruned_junctions, names(&["j"]));
    assert_eq!(outcome.marker_uuids, names(&["m"]));

    let error =
        verify_deletion(PATH, targets(), Vec::new(), &sheet(), &after, &placed()).unwrap_err();
    assert_eq!(reason(error), "post-write readback still contains 2 unit(s) of U1");
    let still = items(&[("c", "symbol", "(c)"), ("w", "wire", "(w)")]);
    let error =
        verify_deletion(PATH, targets(), Vec::new(), &sheet(), &still, &left).unwrap_err();
    assert_eq!(
        reason(error),
        "post-write readback still contains deleted item UUID w"
    );
}

#[test]
fn two_files_differ_by_what_came_went_and_changed() {
    let before = items(&[("a", "wire", "1"), ("b", "wire", "2"), ("c", "wire", "3")]);
    let after = items(&[("b", "wire", "2"), ("c", "wire", "4"), ("d", "wire", "5")]);
    let diff = diff_items(&before, &after);
    assert_eq!(diff.removed, names(&["a"]));
    assert_eq!(diff.added, names(&["d"]));
    assert_eq!(diff.modified, names(&["c"]));
}

#[test]
fn a_failed_commit_is_a_stale_target() {
    let message = |error: CommitError| component_delete_commit_refusal(PATH, &error);
    let conflict = message(CommitError::Conflict).unwrap();
    assert!(matches!(conflict.kind, Some(ToolErrorKind::StaleTarget { .. })));
    assert_eq!(
        conflict.message,
        "cannot safely resolve /work/delete.kicad_sch: the schematic changed after deletion was planned"
    );
    let item = message(CommitError::ItemConflict { reason: "moved".to_string() }).unwrap();
    assert!(item.message.ends_with(": moved"));
    let locked = message(CommitError::KiCadEditorLocked).unwrap();
    assert!(locked.message.contains("KiCad owns the schematic"));
    assert_eq!(message(CommitError::Other), None);
}

#[test]
fn a_command_deletes_inserts_and_replaces() {
    let before = items(&[("a", "symbol", "1"), ("b", "wire", "2"), ("c", "wire", "3")]);
    let after = items(&[("b", "wire", "2"), ("c", "wire", "4"), ("d", "junction", "5")]);
    assert_eq!(
        plan_command(&before, &after, "R1"),
        vec![
            ItemChange::Delete {
                uuids: names(&["a"]),
                summary: "delete R1 and dependent markers".to_string(),
            },
            ItemChange::Insert {
                source: "5".to_string(),
                summary: "restore junction after deleting R1".to_string(),
            },
            ItemChange::Replace {
                uuid: "c".to_string(),
                source: "4".to_string(),
                summary: "reconcile c after deleting R1".to_string(),
            },
        ]
    );
    assert_eq!(plan_command(&before, &before, "R1"), Vec::new());
    let targets =
        select_deletions(PATH, &names(&["U1"]), &names(&["w"]), &sheet(), &placed()).unwrap();
    assert_eq!(uuids_to_delete(&targets, &names(&["m", "a"])), names(&["a", "b", "m", "w"]));
}

#[test]
fn a_command_that_cannot_say_everything_is_refused() {
    let tree = |text: &str| Some(SexpNode::List(vec![SexpNode::Atom(text.to_string())]));
    assert_eq!(check_command(PATH, &tree("a"), &tree("a")), Ok(()));
    assert_eq!(check_command(PATH, &None, &None), Ok(()));
    for prepared in [tree("b"), None] {
        let error = check_command(PATH, &prepared, &tree("a")).unwrap_err();
        assert_eq!(
            reason(error),
            "the structural command cannot represent every dependent connectivity edit"
        );
    }
}
