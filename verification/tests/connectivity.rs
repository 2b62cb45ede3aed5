//! What is connected to what on a sheet.

use konnect_core::connected::get_connected_items;
use konnect_core::connectivity::{
    net_graph_for, seed_net_graph, ConnectivityIndex, LibPin, PlacedPin, SheetItems,
};
use konnect_core::geometry::{
    distance, point_on_wire, points_coincident, pt_key, Label, LabelKind, Wire,
    COINCIDENT_TOLERANCE,
};
use konnect_core::net_queries::{
    get_component_nets, get_net_components, get_net_connections, get_net_connectivity,
    get_pin_connections, points_on_net, trace_from_point, PinConnection,
};
use konnect_core::overlaps::{check_overlaps, Overlap, PlacedSymbol, SymbolBounds};
use konnect_core::sheet_reports::{find_orphan_items, find_shorted_nets, Orphan};
use konnect_core::single_pin::{
    find_single_pin_nets, kind_text, list_nets, reaches_beyond_this_sheet, ComponentPin,
    Connection, PlacedComponent, SinglePinNet,
};
use konnect_core::tool_error::ToolErrorKind;
use konnect_core::wire_index::WireIndex;

fn nm(millimetres: f64) -> i64 {
    (millimetres * 1_000_000.0).round() as i64
}

/// The tolerance that orphans are looked for with when none is given.
const LOOSE: i64 = 50_000;

fn empty() -> SheetItems {
    SheetItems {
        wires: Vec::new(),
        labels: Vec::new(),
        junctions: Vec::new(),
        sheet_pins: Vec::new(),
        no_connects: Vec::new(),
        placed_pins: Vec::new(),
    }
}

fn wire(x1: f64, y1: f64, x2: f64, y2: f64, uuid: &str) -> Wire {
    Wire {
        x1: nm(x1),
        y1: nm(y1),
        x2: nm(x2),
        y2: nm(y2),
        uuid: Some(uuid.to_string()),
    }
}

fn label_of(kind: LabelKind, net: &str, x: f64, y: f64) -> Label {
    Label { net: net.to_string(), kind, x: nm(x), y: nm(y) }
}

fn label(net: &str, x: f64, y: f64) -> Label {
    label_of(LabelKind::NetLabel, net, x, y)
}

fn lib_pin(number: &str, electrical_type: &str) -> LibPin {
    LibPin {
        number: number.to_string(),
        name: "A".to_string(),
        electrical_type: electrical_type.to_string(),
    }
}

fn pin(reference: &str, value: &str, x: f64, y: f64) -> PlacedPin {
    PlacedPin {
        reference: reference.to_string(),
        value: value.to_string(),
        pin: lib_pin("1", "passive"),
        x: nm(x),
        y: nm(y),
    }
}

fn at(x: f64, y: f64) -> (i64, i64) {
    (nm(x), nm(y))
}

fn orphans(items: &SheetItems) -> Vec<Orphan> {
    find_orphan_items(items, LOOSE).unwrap()
}

fn floating(items: &SheetItems) -> usize {
    ConnectivityIndex::build(items, COINCIDENT_TOLERANCE).floating_wire_ends().len()
}

/// The pins that the sheet's own index finds unattached.
fn unattached(items: &SheetItems) -> Vec<&str> {
    let index = ConnectivityIndex::build(items, COINCIDENT_TOLERANCE);
    items
        .placed_pins
        .iter()
        .filter(|pin| !index.attaches_pin(pin.x, pin.y))
        .map(|pin| pin.reference.as_str())
        .collect()
}

#[test]
fn a_sheet_pin_terminates_a_wire_end() {
    let items = SheetItems {
        wires: vec![wire(100.0, 80.0, 120.0, 80.0, "w1")],
        placed_pins: vec![pin("U1", "", 100.0, 80.0)],
        sheet_pins: vec![at(120.0, 80.0)],
        ..empty()
    };
    assert_eq!(orphans(&items), Vec::new());
    assert_eq!(floating(&items), 0);
}

#[test]
fn stacked_pins_are_connected() {
    let items = SheetItems {
        placed_pins: vec![pin("U1", "", 100.0, 80.0), pin("U2", "", 100.0, 80.0)],
        ..empty()
    };
    assert_eq!(orphans(&items), Vec::new());
    assert_eq!(unattached(&items), Vec::<&str>::new());
}

#[test]
fn an_isolated_pin_is_unconnected() {
    let items = SheetItems { placed_pins: vec![pin("U1", "10k", 100.0, 80.0)], ..empty() };
    assert_eq!(
        orphans(&items),
        vec![Orphan::UnconnectedPin {
            reference: "U1".to_string(),
            pin: "1".to_string(),
            pin_name: "A".to_string(),
            x: nm(100.0),
            y: nm(80.0),
        }]
    );
    assert_eq!(unattached(&items), vec!["U1"]);
}

#[test]
fn the_graph_attaches_at_the_tolerance_of_its_index() {
    let wires = vec![wire(100.0, 80.0, 120.0, 80.0, "w1")];
    let labels = vec![label("NETA", 110.0, 80.03)];
    for (tolerance, expected) in [(0.05, Some("NETA".to_string())), (0.01, None)] {
        let index = WireIndex::build(&wires, nm(tolerance));
        let mut graph = seed_net_graph(&wires, &labels, &Vec::new(), &Vec::new(), &index);
        assert_eq!(graph.net_at(nm(100.0), nm(80.0)), expected, "tolerance {tolerance}");
    }
}

#[test]
fn a_wire_that_ends_on_a_sheet_pin_reaches_its_net() {
    let items = SheetItems {
        wires: vec![wire(100.0, 80.0, 120.0, 80.0, "w1")],
        labels: vec![label("NETA", 100.0, 80.0)],
        sheet_pins: vec![at(120.0, 80.0)],
        ..empty()
    };
    let index = ConnectivityIndex::build(&items, COINCIDENT_TOLERANCE);
    assert!(index.has_sheet_pin(nm(120.0), nm(80.0)));
    assert_eq!(
        net_graph_for(&items).net_at(nm(120.0), nm(80.0)),
        Some("NETA".to_string())
    );
}

#[test]
fn a_sheet_pin_mid_wire_needs_a_junction() {
    for (junctions, expected) in
        [(Vec::new(), None), (vec![at(120.0, 80.0)], Some("NETA".to_string()))]
    {
        let items = SheetItems {
            wires: vec![wire(100.0, 80.0, 140.0, 80.0, "w1")],
            labels: vec![label("NETA", 100.0, 80.0)],
            sheet_pins: vec![at(120.0, 80.0)],
            junctions,
            ..empty()
        };
        assert_eq!(net_graph_for(&items).net_at(nm(120.0), nm(80.0)), expected);
    }
}

#[test]
fn an_unwired_power_symbol_is_an_orphan_and_a_wired_one_is_not() {
    let power = |wires, pins| SheetItems {
        wires,
        labels: vec![label_of(LabelKind::PowerSymbol, "GND", 100.0, 80.0)],
        placed_pins: pins,
        ..empty()
    };
    let alone = power(Vec::new(), vec![pin("#PWR01", "GND", 100.0, 80.0)]);
    assert_eq!(orphans(&alone).len(), 1);
    assert_eq!(unattached(&alone), vec!["#PWR01"]);
    let wired = power(
        vec![wire(100.0, 80.0, 120.0, 80.0, "w1")],
        vec![pin("#PWR01", "GND", 100.0, 80.0), pin("U1", "", 120.0, 80.0)],
    );
    assert_eq!(orphans(&wired), Vec::new());
    assert_eq!(unattached(&wired), Vec::<&str>::new());
}

/// A wire from (90, 100) to the pin of U1 at (100, 100) with a label `SIG` on
/// it, a stray label `ORPHAN`, and U2 with nothing on its pin.
fn sheet() -> SheetItems {
    SheetItems {
        wires: vec![wire(90.0, 100.0, 100.0, 100.0, "w1")],
        labels: vec![label("SIG", 95.0, 100.0), label("ORPHAN", 200.0, 200.0)],
        placed_pins: vec![pin("U1", "P", 100.0, 100.0), pin("U2", "P", 150.0, 150.0)],
        ..empty()
    }
}

#[test]
fn every_sort_of_orphan_is_reported_in_order() {
    assert_eq!(
        orphans(&sheet()),
        vec![
            Orphan::DanglingWireEnd {
                x: nm(90.0),
                y: nm(100.0),
                wire_uuid: Some("w1".to_string())
            },
            Orphan::FloatingLabel { net: "ORPHAN".to_string(), x: nm(200.0), y: nm(200.0) },
            Orphan::UnconnectedPin {
                reference: "U2".to_string(),
                pin: "1".to_string(),
                pin_name: "A".to_string(),
                x: nm(150.0),
                y: nm(150.0),
            },
        ]
    );
}

#[test]
fn a_label_on_a_bare_pin_connects_both() {
    let mut items = sheet();
    items.labels.push(label("NC_SIG", 150.0, 150.0));
    let found = orphans(&items);
    assert_eq!(found.len(), 2);
    assert!(matches!(&found[1], Orphan::FloatingLabel { net, .. } if net == "ORPHAN"));
}

#[test]
fn pins_that_are_meant_to_be_open_are_exempt() {
    let mut flagged = sheet();
    flagged.no_connects.push(at(150.0, 150.0));
    assert_eq!(orphans(&flagged).len(), 2);
    let mut intrinsic = sheet();
    intrinsic.placed_pins[1].pin = lib_pin("1", "no_connect");
    assert_eq!(orphans(&intrinsic).len(), 2);
}

#[test]
fn a_tolerance_must_be_positive() {
    for tolerance in [0, -50_000] {
        assert_eq!(
            find_orphan_items(&sheet(), tolerance).unwrap_err(),
            "Invalid argument 'tolerance': must be finite and positive"
        );
    }
}

#[test]
fn coincidence_is_a_box_and_nodes_are_micrometres() {
    assert!(points_coincident(0, 0, 9_999, -9_999, COINCIDENT_TOLERANCE));
    assert!(!points_coincident(0, 0, 10_001, 0, COINCIDENT_TOLERANCE));
    assert_eq!(pt_key(1_000_000, 2_000_000), (1_000, 2_000));
    assert_eq!(pt_key(1_499, -1_501), (1, -2));
    assert_eq!(distance(-5, 7), 12);
    let wire = wire(0.0, 0.0, 10.0, 0.0, "w");
    assert!(point_on_wire(&wire, nm(5.0), 9_000, COINCIDENT_TOLERANCE));
    assert!(!point_on_wire(&wire, nm(5.0), 11_000, COINCIDENT_TOLERANCE));
    assert!(!point_on_wire(&wire, nm(11.0), 0, COINCIDENT_TOLERANCE));
}

#[test]
fn the_index_counts_what_meets_a_point() {
    let items = SheetItems {
        wires: vec![
            wire(0.0, 0.0, 10.0, 0.0, "a"),
            wire(10.0, 0.0, 10.0, 10.0, "b"),
            wire(5.0, -5.0, 5.0, 5.0, "c"),
        ],
        junctions: vec![at(5.0, 0.0)],
        no_connects: vec![at(0.0, 0.0)],
        ..empty()
    };
    let index = ConnectivityIndex::build(&items, COINCIDENT_TOLERANCE);
    assert_eq!(index.wire_ends_at(nm(10.0), 0), 2);
    assert!(index.has_wire_end(0, 0));
    assert!(index.on_wire(nm(5.0), 0) && index.on_wire_interior(nm(5.0), 0));
    assert!(!index.on_wire_interior(nm(10.0), nm(10.0)));
    assert_eq!(index.wires_at(nm(5.0), 0), 2);
    assert!(index.has_junction(nm(5.0), 0));
    assert!(index.has_no_connect(0, 0));
    assert!(!index.has_label(0, 0) && !index.has_pin(0, 0));
    assert_eq!(index.pins_at(0, 0), 0);
    assert!(index.terminates_wire_end(nm(10.0), 0));
    assert!(!index.terminates_wire_end(nm(5.0), nm(5.0)));
    assert_eq!(floating(&items), 3);
}

// ─── Nets and components ──────────────────────────────────────────────────────

fn component(reference: &str, is_power: bool, pins: &[(&str, f64, f64)]) -> PlacedComponent {
    PlacedComponent {
        reference: reference.to_string(),
        value: "10k".to_string(),
        is_power,
        pins: pins
            .iter()
            .map(|&(number, x, y)| ComponentPin {
                pin: lib_pin(number, "passive"),
                x: nm(x),
                y: nm(y),
            })
            .collect(),
    }
}

/// R1 with pin 1 on a label `SIG` and pin 2 wired down to a power symbol.
fn rail() -> (SheetItems, Vec<PlacedComponent>) {
    (
        SheetItems {
            wires: vec![wire(100.0, 103.81, 100.0, 110.0, "w1")],
            labels: vec![
                label("SIG", 100.0, 96.19),
                label_of(LabelKind::PowerSymbol, "GND", 100.0, 110.0),
            ],
            ..empty()
        },
        vec![
            component("R1", false, &[("1", 100.0, 96.19), ("2", 100.0, 103.81)]),
            component("#PWR01", true, &[("1", 100.0, 110.0)]),
        ],
    )
}

fn references(components: &[PlacedComponent]) -> Vec<String> {
    components.iter().map(|component| component.reference.clone()).collect()
}

#[test]
fn a_pin_on_a_rail_reports_it() {
    let (items, components) = rail();
    let names = references(&components);
    let ask = |reference: &str, number: &str| {
        get_pin_connections(&items, &names, &components, reference, number)
    };
    assert_eq!(
        ask("R1", "2"),
        PinConnection::Pin { x: nm(100.0), y: nm(103.81), net: Some("GND".to_string()) }
    );
    assert_eq!(ask("R9", "1"), PinConnection::NoComponent);
    assert_eq!(ask("R1", "7"), PinConnection::NoPin);
    let nets = get_component_nets(&items, &names, &components, "R1").unwrap();
    assert_eq!(nets.len(), 2);
    assert_eq!(nets[0].net.as_deref(), Some("SIG"));
    assert_eq!(nets[1].net.as_deref(), Some("GND"));
    assert!(get_component_nets(&items, &names, &components, "R9").is_none());
}

#[test]
fn a_rail_lists_what_is_on_it() {
    let (items, components) = rail();
    let found = get_net_components(&items, &components, "GND");
    let names: Vec<&str> =
        found.iter().map(|entry| components[entry.component].reference.as_str()).collect();
    assert!(names.contains(&"R1"), "{names:?}");
    assert_eq!(list_nets(&items.labels), vec!["GND".to_string(), "SIG".to_string()]);
    let trace = trace_from_point(&items, nm(100.0), nm(103.81), LOOSE);
    assert_eq!(trace.net.as_deref(), Some("GND"));
    assert_eq!(trace.wires, vec![0]);
    let connections = get_net_connections(&items, &components, "GND");
    assert_eq!(connections.labels, vec![1]);
    assert_eq!(connections.connected_points, 2);
    let pins: Vec<(&str, &Vec<usize>)> = connections
        .components
        .iter()
        .map(|entry| (components[entry.component].reference.as_str(), &entry.pins))
        .collect();
    assert_eq!(pins, vec![("R1", &vec![1]), ("#PWR01", &vec![0])]);
    assert_eq!(get_net_connectivity(&items, "GND").wires, vec![0]);
    assert_eq!(points_on_net(&items, "GND").len(), 2);
    let connected =
        get_connected_items(&items, &references(&components), &components, "R1").unwrap();
    assert_eq!(connected.nets, vec!["GND".to_string(), "SIG".to_string()]);
    assert_eq!(connected.wires, vec![0]);
    assert_eq!(connected.labels, vec![0, 1]);
    assert!(get_connected_items(&items, &references(&components), &components, "R9").is_none());
}

#[test]
fn a_trace_from_the_middle_of_a_wire_finds_its_name() {
    let items = SheetItems {
        wires: vec![wire(100.0, 80.0, 140.0, 80.0, "w1")],
        labels: vec![label("NETA", 100.0, 80.0)],
        ..empty()
    };
    let middle = trace_from_point(&items, nm(120.0), nm(80.0), LOOSE);
    assert_eq!(middle.net.as_deref(), Some("NETA"));
    assert_eq!(middle.wires, vec![0]);
    assert_eq!(middle.labels, Vec::<usize>::new());
    let end = trace_from_point(&items, nm(100.0), nm(80.0), LOOSE);
    assert_eq!(end.net.as_deref(), Some("NETA"));
    assert_eq!(end.labels, vec![0]);
    let off = trace_from_point(&items, nm(120.0), nm(90.0), LOOSE);
    assert_eq!(off.net, None);
    assert_eq!(off.wires, Vec::<usize>::new());
}

#[test]
fn a_label_in_the_middle_of_a_wire_names_all_of_it() {
    let items = SheetItems {
        wires: vec![wire(100.0, 80.0, 140.0, 80.0, "w1")],
        labels: vec![label("NETA", 110.0, 80.0)],
        ..empty()
    };
    for x in [100.0, 105.0, 110.0, 130.0, 140.0] {
        let found = trace_from_point(&items, nm(x), nm(80.0), LOOSE);
        assert_eq!(found.net.as_deref(), Some("NETA"), "at {x}");
    }
}

#[test]
fn a_wire_without_a_label_connects_two_parts() {
    let items = SheetItems {
        wires: vec![
            wire(100.0, 80.0, 120.0, 80.0, "w1"),
            wire(120.0, 80.0, 140.0, 80.0, "w2"),
            wire(0.0, 0.0, 10.0, 0.0, "far"),
        ],
        ..empty()
    };
    let components = vec![
        component("R1", false, &[("1", 100.0, 80.0), ("2", 90.0, 80.0)]),
        component("R2", false, &[("1", 150.0, 80.0), ("2", 140.0, 80.0)]),
        component("R3", false, &[("1", 0.0, 0.0)]),
    ];
    let found =
        get_connected_items(&items, &references(&components), &components, "R1").unwrap();
    assert_eq!(found.nets, Vec::<String>::new());
    assert_eq!(found.wires, vec![0, 1]);
    assert_eq!(found.labels, Vec::<usize>::new());
    assert_eq!(found.components.len(), 1);
    assert_eq!(found.components[0].component, 1);
    assert_eq!(found.components[0].pins, vec![1]);
}

#[test]
fn a_rail_shorted_to_a_named_net_is_reported() {
    let (items, _) = rail();
    assert_eq!(find_shorted_nets(&items), Vec::<Vec<String>>::new());
    let (mut shorted, _) = rail();
    shorted.labels[0] = label("SIG", 100.0, 106.0);
    assert_eq!(
        find_shorted_nets(&shorted),
        vec![vec!["GND".to_string(), "SIG".to_string()]]
    );
}

/// One net of every shape that has to be told apart.
fn shapes() -> (SheetItems, Vec<PlacedComponent>) {
    let items = SheetItems {
        wires: vec![
            wire(0.0, 0.0, 10.0, 0.0, "two"),
            wire(0.0, 10.0, 10.0, 10.0, "lone-a"),
            wire(0.0, 20.0, 10.0, 20.0, "lone-b"),
            wire(0.0, 30.0, 10.0, 30.0, "split-a"),
            wire(0.0, 40.0, 10.0, 40.0, "split-b"),
            wire(0.0, 50.0, 10.0, 50.0, "vcc"),
            wire(0.0, 60.0, 10.0, 60.0, "sheet"),
            wire(0.0, 70.0, 10.0, 70.0, "mixed"),
            wire(0.0, 80.0, 10.0, 80.0, "stub"),
        ],
        labels: vec![
            label("TWO_PIN", 5.0, 0.0),
            label("LONE", 5.0, 10.0),
            label("LONE", 5.0, 20.0),
            label("SPLIT", 5.0, 30.0),
            label("SPLIT", 5.0, 40.0),
            label_of(LabelKind::PowerSymbol, "VCC", 0.0, 50.0),
            label("SHEET_NET", 5.0, 60.0),
            label("MIXED", 4.0, 70.0),
            label_of(LabelKind::GlobalLabel, "MIXED", 6.0, 70.0),
            label("STUB", 5.0, 80.0),
        ],
        sheet_pins: vec![at(10.0, 60.0)],
        ..empty()
    };
    let components = vec![
        component("R1", false, &[("2", 0.0, 0.0)]),
        component("R2", false, &[("1", 10.0, 0.0)]),
        component("R3", false, &[("2", 0.0, 20.0)]),
        component("R4", false, &[("2", 0.0, 30.0)]),
        component("R5", false, &[("1", 0.0, 40.0)]),
        component("#PWR001", true, &[("1", 0.0, 50.0)]),
        component("R6", false, &[("1", 10.0, 50.0)]),
        component("R8", false, &[("2", 0.0, 60.0)]),
        component("R9", false, &[("1", 0.0, 70.0)]),
        component("#FLG01", true, &[("1", 10.0, 70.0)]),
    ];
    (items, components)
}

fn net<'a>(nets: &'a [SinglePinNet], name: &str) -> &'a SinglePinNet {
    nets.iter().find(|net| net.net == name).unwrap()
}

#[test]
fn only_nets_that_reach_at_most_one_pin_are_reported() {
    let (items, components) = shapes();
    let nets = find_single_pin_nets(&items, &components);
    let names: Vec<&str> = nets.iter().map(|net| net.net.as_str()).collect();
    assert_eq!(names, vec!["LONE", "MIXED", "STUB", "VCC"]);

    let lone = net(&nets, "LONE");
    assert_eq!(lone.pins.len(), 1);
    assert_eq!(lone.label_count, 2);
    assert!(matches!(
        &lone.pins[0],
        Connection::ComponentPin { reference, pin, .. } if reference == "R3" && pin == "2"
    ));
    assert_eq!(net(&nets, "STUB").pins, Vec::new());
    assert!(!net(&nets, "STUB").cross_sheet_unverified);

    // The pin of a power symbol names the rail and is none of its connections.
    let vcc = net(&nets, "VCC");
    assert!(matches!(
        &vcc.pins[0],
        Connection::ComponentPin { reference, .. } if reference == "R6"
    ));
    assert_eq!(vcc.label_types, vec![LabelKind::PowerSymbol]);
    assert!(vcc.cross_sheet_unverified);

    // Every kind that named the net is listed, in the order of their names.
    let mixed = net(&nets, "MIXED");
    assert_eq!(mixed.kind, LabelKind::NetLabel);
    assert_eq!(mixed.label_types, vec![LabelKind::GlobalLabel, LabelKind::NetLabel]);
    assert!(mixed.cross_sheet_unverified);
    assert!(matches!(
        &mixed.pins[0],
        Connection::ComponentPin { reference, .. } if reference == "R9"
    ));
}

#[test]
fn kinds_of_labels_have_their_names_and_their_reach() {
    assert_eq!(kind_text(LabelKind::NetLabel), "NetLabel");
    assert_eq!(kind_text(LabelKind::GlobalLabel), "GlobalLabel");
    assert_eq!(kind_text(LabelKind::HierarchicalLabel), "HierarchicalLabel");
    assert_eq!(kind_text(LabelKind::PowerSymbol), "PowerSymbol");
    assert!(!reaches_beyond_this_sheet(&LabelKind::NetLabel));
    assert!(reaches_beyond_this_sheet(&LabelKind::GlobalLabel));
    assert!(reaches_beyond_this_sheet(&LabelKind::HierarchicalLabel));
    assert!(reaches_beyond_this_sheet(&LabelKind::PowerSymbol));
}

// ─── Overlaps ─────────────────────────────────────────────────────────────────

fn drawn(reference: &str, min_x: i64, max_x: i64) -> PlacedSymbol {
    PlacedSymbol {
        reference: reference.to_string(),
        unit: 1,
        x: min_x,
        y: 0,
        bounds: Some(SymbolBounds { min_x, min_y: 0, max_x, max_y: 10 }),
    }
}

#[test]
fn drawings_overlap_by_area_and_touching_is_none() {
    let symbols = vec![drawn("R1", 0, 10), drawn("R2", 8, 20), drawn("R3", 20, 30)];
    let report = check_overlaps(&symbols, &Vec::new(), 0).unwrap();
    assert_eq!(
        report.overlaps,
        vec![Overlap::Geometry { a: 0, b: 1, overlap_x: 2, overlap_y: 10 }]
    );
    assert_eq!(report.bounds_resolved, 3);
    assert_eq!(report.bounds_unresolved, Vec::<usize>::new());
}

#[test]
fn unknown_drawings_are_compared_by_their_origins() {
    let mut unknown = drawn("U1", 0, 10);
    unknown.bounds = None;
    let labels = vec![label("A", 0.0, 0.0), label("B", 0.0, 0.0), label("A", 0.0, 0.0)];
    let report = check_overlaps(&vec![unknown, drawn("U2", 0, 10)], &labels, 1).unwrap();
    assert_eq!(
        report.overlaps,
        vec![
            Overlap::Origin { a: 0, b: 1 },
            Overlap::Labels { a: 0, b: 1 },
            Overlap::Labels { a: 1, b: 2 },
        ]
    );
    assert_eq!(report.bounds_unresolved, vec![0]);
}

#[test]
fn a_negative_overlap_tolerance_is_a_named_argument_error() {
    let error = check_overlaps(&Vec::new(), &Vec::new(), -100_000).unwrap_err();
    assert_eq!(
        error.message,
        "Argument 'tolerance' must be a finite, non-negative number."
    );
    assert!(matches!(
        error.kind,
        Some(ToolErrorKind::InvalidArgument { field, .. }) if field == "tolerance"
    ));
}
