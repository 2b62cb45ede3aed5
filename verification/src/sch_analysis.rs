//! The tools that answer questions about the nets of a schematic.

use crate::catalog::{
    entry, needs, optional, required, takes, ArgumentKind, Bound, DefaultValue, DefaultView,
    ToolEntry, ToolView,
};
use vstd::prelude::*;

verus! {

/// The number of tools.
pub const TOOL_COUNT: usize = 15;

/// What `list_schematic_wires` does, in words.
pub const LIST_SCHEMATIC_WIRES: &'static str =
    "List all wire segments in a schematic with start/end coordinates and UUIDs.";

/// What `list_schematic_nets` does, in words.
pub const LIST_SCHEMATIC_NETS: &'static str =
    "List all distinct net names derived from net labels, global labels, and power symbols.";

/// What `list_schematic_labels` does, in words.
pub const LIST_SCHEMATIC_LABELS: &'static str =
    "List all label instances (net_label, global_label, hierarchical_label) \
    with their positions, net names, and types.";

/// What `get_net_connections` does, in words.
pub const GET_NET_CONNECTIONS: &'static str =
    "Get all pins and labels connected to a named net.";

/// What `get_net_connectivity` does, in words.
pub const GET_NET_CONNECTIVITY: &'static str =
    "Build the full connectivity graph for a net using union-find. \
    Returns all wire segments, labels, and T-junction locations.";

/// What `get_pin_connections` does, in words.
pub const GET_PIN_CONNECTIONS: &'static str =
    "Get the net connected to a specific pin on a component by tracing wires from the pin endpoint.";

/// What `get_pin_net_name` does, in words.
pub const GET_PIN_NET_NAME: &'static str =
    "Return just the net name for a specific pin on a component.";

/// What `get_component_nets` does, in words.
pub const GET_COMPONENT_NETS: &'static str =
    "Get all nets connected to every pin of a component.";

/// What `get_net_components` does, in words.
pub const GET_NET_COMPONENTS: &'static str =
    "Get all components (and their pins) connected to a named net.";

/// What `trace_from_point` does, in words.
pub const TRACE_FROM_POINT: &'static str =
    "Trace connectivity from any (X,Y) point — returns what is at that point and the net it belongs to.";

/// What `find_orphan_items` does, in words.
pub const FIND_ORPHAN_ITEMS: &'static str =
    "Find dangling wire ends, floating labels, and unconnected pin endpoints. \
    Pins, sheet pins, junctions, and no-connect flags all count as connections.";

/// What `find_shorted_nets` does, in words.
pub const FIND_SHORTED_NETS: &'static str =
    "Detect accidentally merged nets — pairs of distinct net names sharing a wire path.";

/// What `find_single_pin_nets` does, in words.
pub const FIND_SINGLE_PIN_NETS: &'static str =
    "Find nets that reach at most one pin — often a missing counterpart, an orphan \
    label, or a stub left by a deleted component. Component pins and hierarchical \
    sheet pins count; a power symbol's own pin names the rail rather than consuming \
    it and does not. Reports the pin and label counts, and every label kind that \
    named the net. Read per sheet: a net a global, hierarchical or power label can \
    carry off this one is flagged cross_sheet_unverified.";

/// What `get_connected_items` does, in words.
pub const GET_CONNECTED_ITEMS: &'static str =
    "Get all wires, labels, and components connected to a given component reference \
    by tracing net connectivity from each of its pins.";

/// What `check_schematic_overlaps` does, in words.
pub const CHECK_SCHEMATIC_OVERLAPS: &'static str =
    "Find overlapping symbols from their transformed drawing/pin bounds (excluding \
    free text), plus conflicting labels at the same location. Reports any symbol whose \
    embedded geometry could not be resolved and used the origin fallback instead.";

/// The argument `net` of `get_net_connections`, in words.
pub const GET_NET_CONNECTIONS_NET: &'static str =
    "Net name to query";

/// The path of a schematic, in words.
pub const SCHEMATIC_FILE: &'static str =
    "Path to .kicad_sch file";

/// The argument `reference` of `get_connected_items`, in words.
pub const GET_CONNECTED_ITEMS_REFERENCE: &'static str =
    "Component reference designator (e.g. 'R1')";

/// The argument `tolerance` of `check_schematic_overlaps`, in words.
pub const CHECK_SCHEMATIC_OVERLAPS_TOLERANCE: &'static str =
    "Coordinate tolerance in mm for label collisions and the origin fallback when library geometry is unavailable";

/// The tool at a position of the list.
pub open spec fn tool_at(i: int) -> ToolView {
    if i == 0 {
        ToolView {
            name: "list_schematic_wires"@,
            description: LIST_SCHEMATIC_WIRES@,
            arguments: seq![
                needs("schematic"@, ArgumentKind::Text),
            ],
        }
    } else if i == 1 {
        ToolView {
            name: "list_schematic_nets"@,
            description: LIST_SCHEMATIC_NETS@,
            arguments: seq![
                needs("schematic"@, ArgumentKind::Text),
            ],
        }
    } else if i == 2 {
        ToolView {
            name: "list_schematic_labels"@,
            description: LIST_SCHEMATIC_LABELS@,
            arguments: seq![
                needs("schematic"@, ArgumentKind::Text),
            ],
        }
    } else if i == 3 {
        ToolView {
            name: "get_net_connections"@,
            description: GET_NET_CONNECTIONS@,
            arguments: seq![
                needs("schematic"@, ArgumentKind::Text),
                needs("net"@, ArgumentKind::Text).says(GET_NET_CONNECTIONS_NET@),
            ],
        }
    } else if i == 4 {
        ToolView {
            name: "get_net_connectivity"@,
            description: GET_NET_CONNECTIVITY@,
            arguments: seq![
                needs("schematic"@, ArgumentKind::Text),
                needs("net"@, ArgumentKind::Text),
            ],
        }
    } else if i == 5 {
        ToolView {
            name: "get_pin_connections"@,
            description: GET_PIN_CONNECTIONS@,
            arguments: seq![
                needs("schematic"@, ArgumentKind::Text),
                needs("reference"@, ArgumentKind::Text),
                needs("pin_number"@, ArgumentKind::Text),
            ],
        }
    } else if i == 6 {
        ToolView {
            name: "get_pin_net_name"@,
            description: GET_PIN_NET_NAME@,
            arguments: seq![
                needs("schematic"@, ArgumentKind::Text),
                needs("reference"@, ArgumentKind::Text),
                needs("pin_number"@, ArgumentKind::Text),
            ],
        }
    } else if i == 7 {
        ToolView {
            name: "get_component_nets"@,
            description: GET_COMPONENT_NETS@,
            arguments: seq![
                needs("schematic"@, ArgumentKind::Text),
                needs("reference"@, ArgumentKind::Text),
            ],
        }
    } else if i == 8 {
        ToolView {
            name: "get_net_components"@,
            description: GET_NET_COMPONENTS@,
            arguments: seq![
                needs("schematic"@, ArgumentKind::Text),
                needs("net"@, ArgumentKind::Text),
            ],
        }
    } else if i == 9 {
        ToolView {
            name: "trace_from_point"@,
            description: TRACE_FROM_POINT@,
            arguments: seq![
                needs("schematic"@, ArgumentKind::Text),
                needs("x"@, ArgumentKind::Number),
                needs("y"@, ArgumentKind::Number),
                takes("tolerance"@, ArgumentKind::Number)
                    .otherwise(DefaultView::Number(50_000)),
            ],
        }
    } else if i == 10 {
        ToolView {
            name: "find_orphan_items"@,
            description: FIND_ORPHAN_ITEMS@,
            arguments: seq![
                needs("schematic"@, ArgumentKind::Text),
                takes("tolerance"@, ArgumentKind::Number)
                    .bounded(Bound::Above(0))
                    .otherwise(DefaultView::Number(50_000)),
            ],
        }
    } else if i == 11 {
        ToolView {
            name: "find_shorted_nets"@,
            description: FIND_SHORTED_NETS@,
            arguments: seq![
                needs("schematic"@, ArgumentKind::Text),
            ],
        }
    } else if i == 12 {
        ToolView {
            name: "find_single_pin_nets"@,
            description: FIND_SINGLE_PIN_NETS@,
            arguments: seq![
                needs("schematic"@, ArgumentKind::Text),
            ],
        }
    } else if i == 13 {
        ToolView {
            name: "get_connected_items"@,
            description: GET_CONNECTED_ITEMS@,
            arguments: seq![
                needs("schematic"@, ArgumentKind::Text).says(SCHEMATIC_FILE@),
                needs("reference"@, ArgumentKind::Text).says(GET_CONNECTED_ITEMS_REFERENCE@),
            ],
        }
    } else {
        ToolView {
            name: "check_schematic_overlaps"@,
            description: CHECK_SCHEMATIC_OVERLAPS@,
            arguments: seq![
                needs("schematic"@, ArgumentKind::Text),
                takes("tolerance"@, ArgumentKind::Number)
                    .says(CHECK_SCHEMATIC_OVERLAPS_TOLERANCE@)
                    .otherwise(DefaultView::Number(500_000)),
            ],
        }
    }
}

/// The tools of this toolset, with the arguments that they take.
pub fn tools() -> (res: Vec<ToolEntry>)
    ensures
        res@.len() == TOOL_COUNT,
        forall|i: int| 0 <= i < TOOL_COUNT ==> (#[trigger] res@[i])@ == tool_at(i),
{
    let mut list: Vec<ToolEntry> = Vec::new();
    let tool_0 = entry(
        "list_schematic_wires",
        LIST_SCHEMATIC_WIRES,
        vec![
            required("schematic", ArgumentKind::Text),
        ],
    );
    assert(tool_0@.arguments =~= tool_at(0).arguments);
    list.push(tool_0);
    let tool_1 = entry(
        "list_schematic_nets",
        LIST_SCHEMATIC_NETS,
        vec![
            required("schematic", ArgumentKind::Text),
        ],
    );
    assert(tool_1@.arguments =~= tool_at(1).arguments);
    list.push(tool_1);
    let tool_2 = entry(
        "list_schematic_labels",
        LIST_SCHEMATIC_LABELS,
        vec![
            required("schematic", ArgumentKind::Text),
        ],
    );
    assert(tool_2@.arguments =~= tool_at(2).arguments);
    list.push(tool_2);
    let tool_3 = entry(
        "get_net_connections",
        GET_NET_CONNECTIONS,
        vec![
            required("schematic", ArgumentKind::Text),
            required("net", ArgumentKind::Text).says(GET_NET_CONNECTIONS_NET),
        ],
    );
    assert(tool_3@.arguments =~= tool_at(3).arguments);
    list.push(tool_3);
    let tool_4 = entry(
        "get_net_connectivity",
        GET_NET_CONNECTIVITY,
        vec![
            required("schematic", ArgumentKind::Text),
            required("net", ArgumentKind::Text),
        ],
    );
    assert(tool_4@.arguments =~= tool_at(4).arguments);
    list.push(tool_4);
    let tool_5 = entry(
        "get_pin_connections",
        GET_PIN_CONNECTIONS,
        vec![
            required("schematic", ArgumentKind::Text),
            required("reference", ArgumentKind::Text),
            required("pin_number", ArgumentKind::Text),
        ],
    );
    assert(tool_5@.arguments =~= tool_at(5).arguments);
    list.push(tool_5);
    let tool_6 = entry(
        "get_pin_net_name",
        GET_PIN_NET_NAME,
        vec![
            required("schematic", ArgumentKind::Text),
            required("reference", ArgumentKind::Text),
            required("pin_number", ArgumentKind::Text),
        ],
    );
    assert(tool_6@.arguments =~= tool_at(6).arguments);
    list.push(tool_6);
    let tool_7 = entry(
        "get_component_nets",
        GET_COMPONENT_NETS,
        vec![
            required("schematic", ArgumentKind::Text),
            required("reference", ArgumentKind::Text),
        ],
    );
    assert(tool_7@.arguments =~= tool_at(7).arguments);
    list.push(tool_7);
    let tool_8 = entry(
        "get_net_components",
        GET_NET_COMPONENTS,
        vec![
            required("schematic", ArgumentKind::Text),
            required("net", ArgumentKind::Text),
        ],
    );
    assert(tool_8@.arguments =~= tool_at(8).arguments);
    list.push(tool_8);
    let tool_9 = entry(
        "trace_from_point",
        TRACE_FROM_POINT,
        vec![
            required("schematic", ArgumentKind::Text),
            required("x", ArgumentKind::Number),
            required("y", ArgumentKind::Number),
            optional("tolerance", ArgumentKind::Number).otherwise(DefaultValue::Number(50_000)),
        ],
    );
    assert(tool_9@.arguments =~= tool_at(9).arguments);
    list.push(tool_9);
    let tool_10 = entry(
        "find_orphan_items",
        FIND_ORPHAN_ITEMS,
        vec![
            required("schematic", ArgumentKind::Text),
            optional("tolerance", ArgumentKind::Number)
                .bounded(Bound::Above(0))
                .otherwise(DefaultValue::Number(50_000)),
        ],
    );
    assert(tool_10@.arguments =~= tool_at(10).arguments);
    list.push(tool_10);
    let tool_11 = entry(
        "find_shorted_nets",
        FIND_SHORTED_NETS,
        vec![
            required("schematic", ArgumentKind::Text),
        ],
    );
    assert(tool_11@.arguments =~= tool_at(11).arguments);
    list.push(tool_11);
    let tool_12 = entry(
        "find_single_pin_nets",
        FIND_SINGLE_PIN_NETS,
        vec![
            required("schematic", ArgumentKind::Text),
        ],
    );
    assert(tool_12@.arguments =~= tool_at(12).arguments);
    list.push(tool_12);
    let tool_13 = entry(
        "get_connected_items",
        GET_CONNECTED_ITEMS,
        vec![
            required("schematic", ArgumentKind::Text).says(SCHEMATIC_FILE),
            required("reference", ArgumentKind::Text).says(GET_CONNECTED_ITEMS_REFERENCE),
        ],
    );
    assert(tool_13@.arguments =~= tool_at(13).arguments);
    list.push(tool_13);
    let tool_14 = entry(
        "check_schematic_overlaps",
        CHECK_SCHEMATIC_OVERLAPS,
        vec![
            required("schematic", ArgumentKind::Text),
            optional("tolerance", ArgumentKind::Number)
                .says(CHECK_SCHEMATIC_OVERLAPS_TOLERANCE)
                .otherwise(DefaultValue::Number(500_000)),
        ],
    );
    assert(tool_14@.arguments =~= tool_at(14).arguments);
    list.push(tool_14);
    list
}

/// No two tools have the same name.
pub proof fn law_tool_names_are_unique(i: int, j: int)
    requires
        0 <= i < j < TOOL_COUNT,
    ensures
        tool_at(i).name != tool_at(j).name,
{
    reveal_strlit("list_schematic_wires");
    reveal_strlit("list_schematic_nets");
    reveal_strlit("list_schematic_labels");
    reveal_strlit("get_net_connections");
    reveal_strlit("get_net_connectivity");
    reveal_strlit("get_pin_connections");
    reveal_strlit("get_pin_net_name");
    reveal_strlit("get_component_nets");
    reveal_strlit("get_net_components");
    reveal_strlit("trace_from_point");
    reveal_strlit("find_orphan_items");
    reveal_strlit("find_shorted_nets");
    reveal_strlit("find_single_pin_nets");
    reveal_strlit("get_connected_items");
    reveal_strlit("check_schematic_overlaps");
    let (a, b) = (tool_at(i).name, tool_at(j).name);
    if a == b {
        assert(a.len() == b.len());
        if a.len() == 16 {
            assert(a[0] == b[0]);
        }
        if a.len() == 17 {
            assert(a[5] == b[5]);
        }
        if a.len() == 18 {
            assert(a[4] == b[4]);
        }
        if a.len() == 19 {
            assert(a[0] == b[0] && a[4] == b[4]);
        }
        if a.len() == 20 {
            assert(a[0] == b[0]);
        }
    }
}

} // verus!
