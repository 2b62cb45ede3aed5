//! The tools that add, edit, move, rotate and delete schematic symbols.

use crate::catalog::{
    axes, axis_choices, entry, member_views, needs, optional, paper_choices, required, takes,
    ArgumentKind, Bound, DefaultValue, DefaultView, Entries, EntriesView, Member, MemberView,
    ToolEntry, ToolView,
};
use crate::page::{paper_names, PAPER_COUNT};
use vstd::prelude::*;

verus! {

/// The number of tools.
pub const TOOL_COUNT: usize = 20;

/// What `create_schematic` does, in words.
pub const CREATE_SCHEMATIC: &'static str =
    "Create a new blank .kicad_sch schematic file, on A4 unless another paper \
    size is given. Use set_schematic_page to change it later.";

/// What `set_schematic_page` does, in words.
pub const SET_SCHEMATIC_PAGE: &'static str =
    "Set the sheet's paper size (A0-A5, A-E, USLetter, USLegal, USLedger) and \
    orientation. Content outside the frame still exports and still nets up, so a \
    too-small page is a silent defect — check the layout extents against the size.";

/// What `add_schematic_component` does, in words.
pub const ADD_SCHEMATIC_COMPONENT: &'static str =
    "Add a symbol from a KiCAD library to the schematic. The symbol is snapped \
    to the 1.27mm schematic grid. Preserves every saved hierarchy instance, reports \
    committed-file readback, copies the library Value and Footprint unless explicitly \
    overridden, and refuses stale instance metadata before writing. \
    Specify position in schematic mm coordinates.";

/// What `delete_schematic_component` does, in words.
pub const DELETE_SCHEMATIC_COMPONENT: &'static str =
    "Remove a component by reference designator, including every placed unit of a multi-unit symbol.";

/// What `edit_schematic_component` does, in words.
pub const EDIT_SCHEMATIC_COMPONENT: &'static str =
    "Update fields (Reference, Value, Footprint, custom properties) consistently across every placed unit of a component, and move or hide the text of any of them.";

/// What `get_schematic_component` does, in words.
pub const GET_SCHEMATIC_COMPONENT: &'static str =
    "Get a component's shared properties and every placed unit's position. Use get_schematic_pin_locations for pins.";

/// What `list_schematic_components` does, in words.
pub const LIST_SCHEMATIC_COMPONENTS: &'static str =
    "List all symbol instances in a schematic with their positions, values, \
    footprints, and pin locations.";

/// What `move_schematic_component` does, in words.
pub const MOVE_SCHEMATIC_COMPONENT: &'static str =
    "Move a component's lowest-numbered unit to a new position and translate every \
    other placed unit by the same delta. Does NOT adjust connected wires. \
    Junction dots are re-judged where the pins moved: a dot the pins leave \
    unjustified is removed and a pin landing mid-span on a wire gains one, \
    reported as junctions_pruned_count and junctions_added_count. A no-connect \
    flag travels with the pin it protects, reported as no_connects_moved; the \
    move is refused before writing when that pin cannot be followed one-to-one.";

/// What `rotate_schematic_component` does, in words.
pub const ROTATE_SCHEMATIC_COMPONENT: &'static str =
    "Set the lowest-numbered unit's absolute rotation and rotate every other placed \
    unit by the same delta. Does NOT adjust connected wires. Each unit's \
    Reference and Value text turns with its body, keeping any offset the caller \
    gave it; use reset_schematic_field_positions to put fields back on their \
    library anchors instead. Junction dots are \
    re-judged where the pins turned, reported as junctions_pruned_count and \
    junctions_added_count. A no-connect flag travels with the pin it protects, \
    reported as no_connects_moved; the turn is refused before writing when that \
    pin cannot be followed one-to-one.";

/// What `move_connected` does, in words.
pub const MOVE_CONNECTED: &'static str =
    "REFUSED until implemented: moving a symbol while stretching its connected              wires is not built yet. Calling this returns an error naming              move_schematic_component as the working alternative — it moves the symbol              only, leaving wires where they are.";

/// What `move_region` does, in words.
pub const MOVE_REGION: &'static str =
    "Move all symbol units whose origins are within a bounding box by a given offset. \
    Does NOT adjust connected wires. Junction dots are re-judged once for the whole \
    region where its pins moved, reported as junctions_pruned_count and \
    junctions_added_count. No-connect flags travel with the pins they protect, \
    reported as no_connects_moved; the move is refused before writing when a pin \
    cannot be followed one-to-one.";

/// What `annotate_schematic` does, in words.
pub const ANNOTATE_SCHEMATIC: &'static str =
    "Assign reference designators in the saved schematic the way eeschema's Tools → \
    Annotate does with its defaults: every '?' designator gets the first free number \
    for its prefix in the project, in ascending X per sheet instance, numbers used on \
    any sheet instance in the file are reserved, and numbered designators are kept. \
    The units of one multi-unit part (same embedded definition and value, distinct \
    units) share one designator; when which units belong together is not proven they \
    are reported in 'unresolved', never guessed. Two separate parts sharing a \
    designator are reported in 'unresolved' with a 'partial' outcome; they are \
    renumbered only when resolve_duplicates is true (the first in ascending X keeps \
    the number). Annotates one project's instance records — the schematic's owner by \
    default, or 'project' — and never touches another project's. Writes both the \
    Reference property and the instances block, then reads the file back; every count \
    in the response comes from that readback. Numbers used on the project's other \
    sheets are reserved through its sheet tree ('other_sheets_consulted'); duplicates \
    already spread across sheets are not detected here. Konnect's own implementation \
    — kicad-cli has no annotate command. dry_run returns the plan without writing.";

/// What `get_schematic_pin_locations` does, in words.
pub const GET_SCHEMATIC_PIN_LOCATIONS: &'static str =
    "Get the exact schematic-space (X,Y) coordinates of every pin on every placed unit of a component, \
    accounting for rotation and mirroring. Uses the canonical pin transform. \
    Each pin also reports 'orientation_degrees', the direction leading away \
    from the symbol body (0 = east) — a net label at the pin must read that \
    way or its text runs back over the symbol's pin names — and 'length_mm'.";

/// What `batch_get_schematic_pin_locations` does, in words.
pub const BATCH_GET_SCHEMATIC_PIN_LOCATIONS: &'static str =
    "Get pin locations for multiple components in a single file read. Reports the \
    same per-pin fields as get_schematic_pin_locations, including \
    'orientation_degrees' and 'length_mm'.";

/// What `add_component_annotation` does, in words.
pub const ADD_COMPONENT_ANNOTATION: &'static str =
    "Add or update a custom property consistently across every placed unit of a component.";

/// What `group_components` does, in words.
pub const GROUP_COMPONENTS: &'static str =
    "Add or update a group property on every placed unit of multiple components.";

/// What `replace_component` does, in words.
pub const REPLACE_COMPONENT: &'static str =
    "Replace every placed unit of a component with a new library symbol while \
    preserving unit numbers. A unit override is accepted only for a single \
    placement. Junction dots are re-judged once for the whole replacement, \
    reported as junctions_pruned_count and junctions_added_count. A no-connect \
    flag follows the same symbol UUID, unit, and pin number when that mapping is \
    one-to-one; removed, renumbered, or duplicated protected pins refuse before \
    writing.";

/// What `update_symbols_from_library` does, in words.
pub const UPDATE_SYMBOLS_FROM_LIBRARY: &'static str =
    "Re-embed placed symbols' definitions from their libraries, like KiCad's \
    'Update Symbols from Library'. A schematic carries its own copy of every \
    symbol, so editing one in its library leaves the sheet drawing the old \
    shape — this refreshes it. A symbol whose pins moved or disappeared in \
    the library is refused (reported in pins_moved) unless allow_pin_moves \
    is set, because wires and labels attach at pin coordinates.";

/// What `reset_schematic_field_positions` does, in words.
pub const RESET_SCHEMATIC_FIELD_POSITIONS: &'static str =
    "Move each placed symbol's Reference and Value text back to the position its \
    library definition anchors them at, carried through the symbol's own rotation \
    — KiCad's 'Reset field text positions'. Use it on a sheet whose fields sit at \
    a uniform offset instead of where the library puts them (labels inside a \
    connector body, a rail's name below an up-pointing arrow). Fields a symbol's \
    definition gives no anchor for are left alone.";

/// What `get_schematic_view` does, in words.
pub const GET_SCHEMATIC_VIEW: &'static str =
    "Render a schematic sheet with kicad-cli and return the path to the SVG it wrote.              There is no PNG: KiCad ships no schematic rasteriser — `sch export` offers no bitmap              format and there is no `sch render` — so this is a vector file, not an image that can              be shown inline. It lands in a temporary directory and is overwritten by the next view              of the same sheet; use export_schematic_svg (toolset sch_export) to choose where it              goes. The SVG doubles as a geometry source: kicad-cli writes every string a second              time as an invisible <text opacity=\"0\"> element carrying x, y, textLength, font-size              and text-anchor, so text content, position and width can be checked without rendering              a pixel.";

/// The argument `path` of `create_schematic`, in words.
pub const CREATE_SCHEMATIC_PATH: &'static str =
    "Full path for the new .kicad_sch file";

/// The argument `size` of `create_schematic`, in words.
pub const CREATE_SCHEMATIC_SIZE: &'static str =
    "Paper size, e.g. 'A4', 'A3', 'USLetter' (default 'A4')";

/// The orientation of a sheet, in words.
pub const PORTRAIT: &'static str =
    "Portrait instead of the default landscape";

/// The path of a schematic, in words.
pub const SCHEMATIC_FILE: &'static str =
    "Path to .kicad_sch file";

/// The argument `size` of `set_schematic_page`, in words.
pub const SET_SCHEMATIC_PAGE_SIZE: &'static str =
    "Paper size, e.g. 'A4', 'A3', 'A2', 'USLetter'";

/// The argument `lib_id` of `add_schematic_component`, in words.
pub const ADD_SCHEMATIC_COMPONENT_LIB_ID: &'static str =
    "Library:Symbol (e.g. 'Device:R')";

/// The argument `x` of `add_schematic_component`, in words.
pub const ADD_SCHEMATIC_COMPONENT_X: &'static str =
    "X position in mm";

/// The argument `y` of `add_schematic_component`, in words.
pub const ADD_SCHEMATIC_COMPONENT_Y: &'static str =
    "Y position in mm";

/// The argument `rotation` of `add_schematic_component`, in words.
pub const ADD_SCHEMATIC_COMPONENT_ROTATION: &'static str =
    "Rotation in degrees (0/90/180/270)";

/// The argument `mirror` of `add_schematic_component`, in words.
pub const ADD_SCHEMATIC_COMPONENT_MIRROR: &'static str =
    "Reflect the placed symbol about an axis, using eeschema's own vocabulary: 'x' negates screen-Y, 'y' negates screen-X. Omit (or 'none') for an unmirrored symbol. Mirroring is applied after rotation, and is not interchangeable with rotation 180 for a symbol whose pins are not symmetric.";

/// The argument `reference` of `add_schematic_component`, in words.
pub const ADD_SCHEMATIC_COMPONENT_REFERENCE: &'static str =
    "Optional override for reference designator";

/// The argument `value` of `add_schematic_component`, in words.
pub const ADD_SCHEMATIC_COMPONENT_VALUE: &'static str =
    "Optional override for the library symbol's Value";

/// The argument `footprint` of `add_schematic_component`, in words.
pub const ADD_SCHEMATIC_COMPONENT_FOOTPRINT: &'static str =
    "Optional override for the library symbol's Footprint";

/// The argument `unit` of `add_schematic_component`, in words.
pub const ADD_SCHEMATIC_COMPONENT_UNIT: &'static str =
    "Unit number for multi-unit symbols (gate/part selection). Default 1.";

/// The argument `reference` of `delete_schematic_component`, in words.
pub const DELETE_SCHEMATIC_COMPONENT_REFERENCE: &'static str =
    "Reference designator (e.g. 'R1')";

/// The argument `reference` of `edit_schematic_component`, in words.
pub const EDIT_SCHEMATIC_COMPONENT_REFERENCE: &'static str =
    "Current reference designator";

/// The argument `new_reference` of `edit_schematic_component`, in words.
pub const EDIT_SCHEMATIC_COMPONENT_NEW_REFERENCE: &'static str =
    "New reference designator (optional)";

/// The argument `value` of `edit_schematic_component`, in words.
pub const EDIT_SCHEMATIC_COMPONENT_VALUE: &'static str =
    "New value (optional)";

/// The argument `footprint` of `edit_schematic_component`, in words.
pub const EDIT_SCHEMATIC_COMPONENT_FOOTPRINT: &'static str =
    "New footprint (optional)";

/// The argument `datasheet` of `edit_schematic_component`, in words.
pub const EDIT_SCHEMATIC_COMPONENT_DATASHEET: &'static str =
    "New datasheet URL (optional)";

/// The argument `fields` of `edit_schematic_component`, in words.
pub const EDIT_SCHEMATIC_COMPONENT_FIELDS: &'static str =
    "Additional property fields to set as key:value pairs";

/// The argument `field_placements` of `edit_schematic_component`, in words.
pub const EDIT_SCHEMATIC_COMPONENT_FIELD_PLACEMENTS: &'static str =
    "Move or hide a field's text, keyed by field name (Reference, Value, Footprint, or a custom property). Each entry may set x, y, rotation and hide; an omitted part is left as the file has it. Coordinates are absolute schematic millimetres, as KiCad stores them — not offsets from the body.";

/// The argument `unit` of `edit_schematic_component`, in words.
pub const EDIT_SCHEMATIC_COMPONENT_UNIT: &'static str =
    "Which placed unit field_placements applies to. Required when x or y is given and the component has more than one placed unit, because a field position is absolute and one coordinate cannot be right for several placements.";

/// The argument `x` of `move_schematic_component`, in words.
pub const MOVE_SCHEMATIC_COMPONENT_X: &'static str =
    "New X position in mm";

/// The argument `y` of `move_schematic_component`, in words.
pub const MOVE_SCHEMATIC_COMPONENT_Y: &'static str =
    "New Y position in mm";

/// The argument `rotation` of `rotate_schematic_component`, in words.
pub const ROTATE_SCHEMATIC_COMPONENT_ROTATION: &'static str =
    "Absolute rotation in degrees";

/// The argument `x1` of `move_region`, in words.
pub const MOVE_REGION_X1: &'static str =
    "Region bounding box min X";

/// The argument `y1` of `move_region`, in words.
pub const MOVE_REGION_Y1: &'static str =
    "Region bounding box min Y";

/// The argument `x2` of `move_region`, in words.
pub const MOVE_REGION_X2: &'static str =
    "Region bounding box max X";

/// The argument `y2` of `move_region`, in words.
pub const MOVE_REGION_Y2: &'static str =
    "Region bounding box max Y";

/// The argument `dx` of `move_region`, in words.
pub const MOVE_REGION_DX: &'static str =
    "X offset to move by";

/// The argument `dy` of `move_region`, in words.
pub const MOVE_REGION_DY: &'static str =
    "Y offset to move by";

/// The argument `schematic` of `annotate_schematic`, in words.
pub const ANNOTATE_SCHEMATIC_SCHEMATIC: &'static str =
    "Path to the .kicad_sch file";

/// The argument `resolve_duplicates` of `annotate_schematic`, in words.
pub const ANNOTATE_SCHEMATIC_RESOLVE_DUPLICATES: &'static str =
    "Renumber separate single-unit parts that share a designator in the project: the first in ascending X keeps it, the rest get the first free number. Default false: duplicates are reported, not changed. A shared designator that could be the units of one multi-unit package is never renumbered either way.";

/// The argument `dry_run` of `annotate_schematic`, in words.
pub const ANNOTATE_SCHEMATIC_DRY_RUN: &'static str =
    "Report what would be assigned without writing. Default false.";

/// The argument `project` of `annotate_schematic`, in words.
pub const ANNOTATE_SCHEMATIC_PROJECT: &'static str =
    "Project whose instance records to annotate, as named in the symbols' (instances (project …)) blocks. Default: the project that owns the schematic (its .kicad_pro), else the only project the file names; refused with the candidates when that is ambiguous. Other projects' records are never edited.";

/// The argument `references` of `batch_get_schematic_pin_locations`, in words.
pub const BATCH_GET_SCHEMATIC_PIN_LOCATIONS_REFERENCES: &'static str =
    "List of reference designators";

/// The argument `reference` of `add_component_annotation`, in words.
pub const ADD_COMPONENT_ANNOTATION_REFERENCE: &'static str =
    "Component reference designator (e.g. 'R1')";

/// The argument `key` of `add_component_annotation`, in words.
pub const ADD_COMPONENT_ANNOTATION_KEY: &'static str =
    "Property name";

/// The argument `value` of `add_component_annotation`, in words.
pub const ADD_COMPONENT_ANNOTATION_VALUE: &'static str =
    "Property value";

/// The argument `references` of `group_components`, in words.
pub const GROUP_COMPONENTS_REFERENCES: &'static str =
    "List of reference designators to group";

/// The argument `group_name` of `group_components`, in words.
pub const GROUP_COMPONENTS_GROUP_NAME: &'static str =
    "Group name to assign";

/// The argument `reference` of `replace_component`, in words.
pub const REPLACE_COMPONENT_REFERENCE: &'static str =
    "Component reference designator (e.g. 'U1')";

/// The argument `new_lib_id` of `replace_component`, in words.
pub const REPLACE_COMPONENT_NEW_LIB_ID: &'static str =
    "New Library:Symbol identifier (e.g. 'Device:C')";

/// The argument `unit` of `replace_component`, in words.
pub const REPLACE_COMPONENT_UNIT: &'static str =
    "Optional unit number for a single placed unit; rejected as ambiguous when the reference has multiple placements. When omitted, every existing unit number is preserved and validated against the new symbol.";

/// The argument `references` of `update_symbols_from_library`, in words.
pub const UPDATE_SYMBOLS_FROM_LIBRARY_REFERENCES: &'static str =
    "Component references to update (e.g. ['U1']). Omit to update every symbol in the schematic.";

/// The argument `dry_run` of `update_symbols_from_library`, in words.
pub const UPDATE_SYMBOLS_FROM_LIBRARY_DRY_RUN: &'static str =
    "Report what would change without writing.";

/// The argument `allow_pin_moves` of `update_symbols_from_library`, in words.
pub const UPDATE_SYMBOLS_FROM_LIBRARY_ALLOW_PIN_MOVES: &'static str =
    "Update symbols even when the library moved or removed pins. Wires and labels attached at the old pin positions are NOT moved with them — reconnect them afterwards.";

/// The argument `references` of `reset_schematic_field_positions`, in words.
pub const RESET_SCHEMATIC_FIELD_POSITIONS_REFERENCES: &'static str =
    "Component references to reset (e.g. ['U1']). Omit to reset every symbol in the schematic.";

/// The argument `dry_run` of `reset_schematic_field_positions`, in words.
pub const RESET_SCHEMATIC_FIELD_POSITIONS_DRY_RUN: &'static str =
    "Report what would move without writing.";

/// What hiding means in a placement, in words.
pub const PLACEMENT_HIDE: &'static str =
    "true hides the field's text on the sheet; false shows it.";

/// The parts of a placement.
pub open spec fn placement_members() -> Seq<MemberView> {
    seq![
        MemberView { name: "x"@, kind: ArgumentKind::Number, description: None },
        MemberView { name: "y"@, kind: ArgumentKind::Number, description: None },
        MemberView { name: "rotation"@, kind: ArgumentKind::Number, description: None },
        MemberView {
            name: "hide"@,
            kind: ArgumentKind::Flag,
            description: Some(PLACEMENT_HIDE@),
        },
    ]
}

fn list_placement_members() -> (res: Vec<Member>)
    ensures
        member_views(res@) == placement_members(),
{
    let list: Vec<Member> = vec![
        Member { name: "x", kind: ArgumentKind::Number, description: None },
        Member { name: "y", kind: ArgumentKind::Number, description: None },
        Member { name: "rotation", kind: ArgumentKind::Number, description: None },
        Member { name: "hide", kind: ArgumentKind::Flag, description: Some(PLACEMENT_HIDE) },
    ];
    assert(member_views(list@) =~= placement_members());
    list
}

/// The tool at a position of the list.
pub open spec fn tool_at(i: int) -> ToolView {
    if i == 0 {
        ToolView {
            name: "create_schematic"@,
            description: CREATE_SCHEMATIC@,
            arguments: seq![
                needs("path"@, ArgumentKind::Text).says(CREATE_SCHEMATIC_PATH@),
                takes("size"@, ArgumentKind::Text)
                    .says(CREATE_SCHEMATIC_SIZE@)
                    .among(paper_names(PAPER_COUNT as int))
                    .otherwise(DefaultView::Text("A4"@)),
                takes("portrait"@, ArgumentKind::Flag)
                    .says(PORTRAIT@)
                    .otherwise(DefaultView::Flag(false)),
            ],
        }
    } else if i == 1 {
        ToolView {
            name: "set_schematic_page"@,
            description: SET_SCHEMATIC_PAGE@,
            arguments: seq![
                needs("schematic"@, ArgumentKind::Text).says(SCHEMATIC_FILE@),
                needs("size"@, ArgumentKind::Text)
                    .says(SET_SCHEMATIC_PAGE_SIZE@)
                    .among(paper_names(PAPER_COUNT as int)),
                takes("portrait"@, ArgumentKind::Flag)
                    .says(PORTRAIT@)
                    .otherwise(DefaultView::Flag(false)),
            ],
        }
    } else if i == 2 {
        ToolView {
            name: "add_schematic_component"@,
            description: ADD_SCHEMATIC_COMPONENT@,
            arguments: seq![
                needs("schematic"@, ArgumentKind::Text).says(SCHEMATIC_FILE@),
                needs("lib_id"@, ArgumentKind::Text).says(ADD_SCHEMATIC_COMPONENT_LIB_ID@),
                needs("x"@, ArgumentKind::Number).says(ADD_SCHEMATIC_COMPONENT_X@),
                needs("y"@, ArgumentKind::Number).says(ADD_SCHEMATIC_COMPONENT_Y@),
                takes("rotation"@, ArgumentKind::Number)
                    .says(ADD_SCHEMATIC_COMPONENT_ROTATION@)
                    .otherwise(DefaultView::Number(0)),
                takes("mirror"@, ArgumentKind::Text)
                    .says(ADD_SCHEMATIC_COMPONENT_MIRROR@)
                    .among(axes()),
                takes("reference"@, ArgumentKind::Text)
                    .says(ADD_SCHEMATIC_COMPONENT_REFERENCE@),
                takes("value"@, ArgumentKind::Text).says(ADD_SCHEMATIC_COMPONENT_VALUE@),
                takes("footprint"@, ArgumentKind::Text)
                    .says(ADD_SCHEMATIC_COMPONENT_FOOTPRINT@),
                takes("unit"@, ArgumentKind::Integer)
                    .says(ADD_SCHEMATIC_COMPONENT_UNIT@)
                    .bounded(Bound::AtLeast(1))
                    .otherwise(DefaultView::Number(1_000_000)),
            ],
        }
    } else if i == 3 {
        ToolView {
            name: "delete_schematic_component"@,
            description: DELETE_SCHEMATIC_COMPONENT@,
            arguments: seq![
                needs("schematic"@, ArgumentKind::Text),
                needs("reference"@, ArgumentKind::Text)
                    .says(DELETE_SCHEMATIC_COMPONENT_REFERENCE@),
            ],
        }
    } else if i == 4 {
        ToolView {
            name: "edit_schematic_component"@,
            description: EDIT_SCHEMATIC_COMPONENT@,
            arguments: seq![
                needs("schematic"@, ArgumentKind::Text),
                needs("reference"@, ArgumentKind::Text)
                    .says(EDIT_SCHEMATIC_COMPONENT_REFERENCE@),
                takes("new_reference"@, ArgumentKind::Text)
                    .says(EDIT_SCHEMATIC_COMPONENT_NEW_REFERENCE@),
                takes("value"@, ArgumentKind::Text).says(EDIT_SCHEMATIC_COMPONENT_VALUE@),
                takes("footprint"@, ArgumentKind::Text)
                    .says(EDIT_SCHEMATIC_COMPONENT_FOOTPRINT@),
                takes("datasheet"@, ArgumentKind::Text)
                    .says(EDIT_SCHEMATIC_COMPONENT_DATASHEET@),
                takes("fields"@, ArgumentKind::Object)
                    .says(EDIT_SCHEMATIC_COMPONENT_FIELDS@)
                    .holding(EntriesView::Anything),
                takes("field_placements"@, ArgumentKind::Object)
                    .says(EDIT_SCHEMATIC_COMPONENT_FIELD_PLACEMENTS@)
                    .holding(EntriesView::Objects(placement_members())),
                takes("unit"@, ArgumentKind::Integer).says(EDIT_SCHEMATIC_COMPONENT_UNIT@),
            ],
        }
    } else if i == 5 {
        ToolView {
            name: "get_schematic_component"@,
            description: GET_SCHEMATIC_COMPONENT@,
            arguments: seq![
                needs("schematic"@, ArgumentKind::Text),
                needs("reference"@, ArgumentKind::Text),
            ],
        }
    } else if i == 6 {
        ToolView {
            name: "list_schematic_components"@,
            description: LIST_SCHEMATIC_COMPONENTS@,
            arguments: seq![
                needs("schematic"@, ArgumentKind::Text),
            ],
        }
    } else if i == 7 {
        ToolView {
            name: "move_schematic_component"@,
            description: MOVE_SCHEMATIC_COMPONENT@,
            arguments: seq![
                needs("schematic"@, ArgumentKind::Text),
                needs("reference"@, ArgumentKind::Text),
                needs("x"@, ArgumentKind::Number).says(MOVE_SCHEMATIC_COMPONENT_X@),
                needs("y"@, ArgumentKind::Number).says(MOVE_SCHEMATIC_COMPONENT_Y@),
            ],
        }
    } else if i == 8 {
        ToolView {
            name: "rotate_schematic_component"@,
            description: ROTATE_SCHEMATIC_COMPONENT@,
            arguments: seq![
                needs("schematic"@, ArgumentKind::Text),
                needs("reference"@, ArgumentKind::Text),
                needs("rotation"@, ArgumentKind::Number)
                    .says(ROTATE_SCHEMATIC_COMPONENT_ROTATION@),
            ],
        }
    } else if i == 9 {
        ToolView {
            name: "move_connected"@,
            description: MOVE_CONNECTED@,
            arguments: Seq::empty(),
        }
    } else if i == 10 {
        ToolView {
            name: "move_region"@,
            description: MOVE_REGION@,
            arguments: seq![
                needs("schematic"@, ArgumentKind::Text),
                needs("x1"@, ArgumentKind::Number).says(MOVE_REGION_X1@),
                needs("y1"@, ArgumentKind::Number).says(MOVE_REGION_Y1@),
                needs("x2"@, ArgumentKind::Number).says(MOVE_REGION_X2@),
                needs("y2"@, ArgumentKind::Number).says(MOVE_REGION_Y2@),
                needs("dx"@, ArgumentKind::Number).says(MOVE_REGION_DX@),
                needs("dy"@, ArgumentKind::Number).says(MOVE_REGION_DY@),
            ],
        }
    } else if i == 11 {
        ToolView {
            name: "annotate_schematic"@,
            description: ANNOTATE_SCHEMATIC@,
            arguments: seq![
                needs("schematic"@, ArgumentKind::Text).says(ANNOTATE_SCHEMATIC_SCHEMATIC@),
                takes("resolve_duplicates"@, ArgumentKind::Flag)
                    .says(ANNOTATE_SCHEMATIC_RESOLVE_DUPLICATES@)
                    .otherwise(DefaultView::Flag(false)),
                takes("dry_run"@, ArgumentKind::Flag)
                    .says(ANNOTATE_SCHEMATIC_DRY_RUN@)
                    .otherwise(DefaultView::Flag(false)),
                takes("project"@, ArgumentKind::Text).says(ANNOTATE_SCHEMATIC_PROJECT@),
            ],
        }
    } else if i == 12 {
        ToolView {
            name: "get_schematic_pin_locations"@,
            description: GET_SCHEMATIC_PIN_LOCATIONS@,
            arguments: seq![
                needs("schematic"@, ArgumentKind::Text),
                needs("reference"@, ArgumentKind::Text),
            ],
        }
    } else if i == 13 {
        ToolView {
            name: "batch_get_schematic_pin_locations"@,
            description: BATCH_GET_SCHEMATIC_PIN_LOCATIONS@,
            arguments: seq![
                needs("schematic"@, ArgumentKind::Text),
                needs("references"@, ArgumentKind::TextList)
                    .says(BATCH_GET_SCHEMATIC_PIN_LOCATIONS_REFERENCES@),
            ],
        }
    } else if i == 14 {
        ToolView {
            name: "add_component_annotation"@,
            description: ADD_COMPONENT_ANNOTATION@,
            arguments: seq![
                needs("schematic"@, ArgumentKind::Text).says(SCHEMATIC_FILE@),
                needs("reference"@, ArgumentKind::Text)
                    .says(ADD_COMPONENT_ANNOTATION_REFERENCE@),
                needs("key"@, ArgumentKind::Text).says(ADD_COMPONENT_ANNOTATION_KEY@),
                needs("value"@, ArgumentKind::Text).says(ADD_COMPONENT_ANNOTATION_VALUE@),
            ],
        }
    } else if i == 15 {
        ToolView {
            name: "group_components"@,
            description: GROUP_COMPONENTS@,
            arguments: seq![
                needs("schematic"@, ArgumentKind::Text).says(SCHEMATIC_FILE@),
                needs("references"@, ArgumentKind::TextList).says(GROUP_COMPONENTS_REFERENCES@),
                needs("group_name"@, ArgumentKind::Text).says(GROUP_COMPONENTS_GROUP_NAME@),
            ],
        }
    } else if i == 16 {
        ToolView {
            name: "replace_component"@,
            description: REPLACE_COMPONENT@,
            arguments: seq![
                needs("schematic"@, ArgumentKind::Text).says(SCHEMATIC_FILE@),
                needs("reference"@, ArgumentKind::Text).says(REPLACE_COMPONENT_REFERENCE@),
                needs("new_lib_id"@, ArgumentKind::Text).says(REPLACE_COMPONENT_NEW_LIB_ID@),
                takes("unit"@, ArgumentKind::Integer)
                    .says(REPLACE_COMPONENT_UNIT@)
                    .bounded(Bound::AtLeast(1)),
            ],
        }
    } else if i == 17 {
        ToolView {
            name: "update_symbols_from_library"@,
            description: UPDATE_SYMBOLS_FROM_LIBRARY@,
            arguments: seq![
                needs("schematic"@, ArgumentKind::Text).says(SCHEMATIC_FILE@),
                takes("references"@, ArgumentKind::TextList)
                    .says(UPDATE_SYMBOLS_FROM_LIBRARY_REFERENCES@),
                takes("dry_run"@, ArgumentKind::Flag)
                    .says(UPDATE_SYMBOLS_FROM_LIBRARY_DRY_RUN@)
                    .otherwise(DefaultView::Flag(false)),
                takes("allow_pin_moves"@, ArgumentKind::Flag)
                    .says(UPDATE_SYMBOLS_FROM_LIBRARY_ALLOW_PIN_MOVES@)
                    .otherwise(DefaultView::Flag(false)),
            ],
        }
    } else if i == 18 {
        ToolView {
            name: "reset_schematic_field_positions"@,
            description: RESET_SCHEMATIC_FIELD_POSITIONS@,
            arguments: seq![
                needs("schematic"@, ArgumentKind::Text).says(SCHEMATIC_FILE@),
                takes("references"@, ArgumentKind::TextList)
                    .says(RESET_SCHEMATIC_FIELD_POSITIONS_REFERENCES@),
                takes("dry_run"@, ArgumentKind::Flag)
                    .says(RESET_SCHEMATIC_FIELD_POSITIONS_DRY_RUN@)
                    .otherwise(DefaultView::Flag(false)),
            ],
        }
    } else {
        ToolView {
            name: "get_schematic_view"@,
            description: GET_SCHEMATIC_VIEW@,
            arguments: seq![
                needs("schematic"@, ArgumentKind::Text),
            ],
        }
    }
}

/// The tools of this toolset, with the arguments that they take.
pub fn tools() -> (res: Vec<ToolEntry>)
    ensures
        res@.len() == TOOL_COUNT,
        forall|i: int| 0 <= i < TOOL_COUNT ==> (#[trigger] res@[i])@ == tool_at(i),
{
    let mut list: Vec<ToolEntry> = Vec::new();
    let tool_0 = entry(
        "create_schematic",
        CREATE_SCHEMATIC,
        vec![
            required("path", ArgumentKind::Text).says(CREATE_SCHEMATIC_PATH),
            optional("size", ArgumentKind::Text)
                .says(CREATE_SCHEMATIC_SIZE)
                .among(paper_choices())
                .otherwise(DefaultValue::Text("A4")),
            optional("portrait", ArgumentKind::Flag)
                .says(PORTRAIT)
                .otherwise(DefaultValue::Flag(false)),
        ],
    );
    assert(tool_0@.arguments =~= tool_at(0).arguments);
    list.push(tool_0);
    let tool_1 = entry(
        "set_schematic_page",
        SET_SCHEMATIC_PAGE,
        vec![
            required("schematic", ArgumentKind::Text).says(SCHEMATIC_FILE),
            required("size", ArgumentKind::Text)
                .says(SET_SCHEMATIC_PAGE_SIZE)
                .among(paper_choices()),
            optional("portrait", ArgumentKind::Flag)
                .says(PORTRAIT)
                .otherwise(DefaultValue::Flag(false)),
        ],
    );
    assert(tool_1@.arguments =~= tool_at(1).arguments);
    list.push(tool_1);
    let tool_2 = entry(
        "add_schematic_component",
        ADD_SCHEMATIC_COMPONENT,
        vec![
            required("schematic", ArgumentKind::Text).says(SCHEMATIC_FILE),
            required("lib_id", ArgumentKind::Text).says(ADD_SCHEMATIC_COMPONENT_LIB_ID),
            required("x", ArgumentKind::Number).says(ADD_SCHEMATIC_COMPONENT_X),
            required("y", ArgumentKind::Number).says(ADD_SCHEMATIC_COMPONENT_Y),
            optional("rotation", ArgumentKind::Number)
                .says(ADD_SCHEMATIC_COMPONENT_ROTATION)
                .otherwise(DefaultValue::Number(0)),
            optional("mirror", ArgumentKind::Text)
                .says(ADD_SCHEMATIC_COMPONENT_MIRROR)
                .among(axis_choices()),
            optional("reference", ArgumentKind::Text).says(ADD_SCHEMATIC_COMPONENT_REFERENCE),
            optional("value", ArgumentKind::Text).says(ADD_SCHEMATIC_COMPONENT_VALUE),
            optional("footprint", ArgumentKind::Text).says(ADD_SCHEMATIC_COMPONENT_FOOTPRINT),
            optional("unit", ArgumentKind::Integer)
                .says(ADD_SCHEMATIC_COMPONENT_UNIT)
                .bounded(Bound::AtLeast(1))
                .otherwise(DefaultValue::Number(1_000_000)),
        ],
    );
    assert(tool_2@.arguments =~= tool_at(2).arguments);
    list.push(tool_2);
    let tool_3 = entry(
        "delete_schematic_component",
        DELETE_SCHEMATIC_COMPONENT,
        vec![
            required("schematic", ArgumentKind::Text),
            required("reference", ArgumentKind::Text)
                .says(DELETE_SCHEMATIC_COMPONENT_REFERENCE),
        ],
    );
    assert(tool_3@.arguments =~= tool_at(3).arguments);
    list.push(tool_3);
    let tool_4 = entry(
        "edit_schematic_component",
        EDIT_SCHEMATIC_COMPONENT,
        vec![
            required("schematic", ArgumentKind::Text),
            required("reference", ArgumentKind::Text).says(EDIT_SCHEMATIC_COMPONENT_REFERENCE),
            optional("new_reference", ArgumentKind::Text)
                .says(EDIT_SCHEMATIC_COMPONENT_NEW_REFERENCE),
            optional("value", ArgumentKind::Text).says(EDIT_SCHEMATIC_COMPONENT_VALUE),
            optional("footprint", ArgumentKind::Text).says(EDIT_SCHEMATIC_COMPONENT_FOOTPRINT),
            optional("datasheet", ArgumentKind::Text).says(EDIT_SCHEMATIC_COMPONENT_DATASHEET),
            optional("fields", ArgumentKind::Object)
                .says(EDIT_SCHEMATIC_COMPONENT_FIELDS)
                .holding(Entries::Anything),
            optional("field_placements", ArgumentKind::Object)
                .says(EDIT_SCHEMATIC_COMPONENT_FIELD_PLACEMENTS)
                .holding(Entries::Objects(list_placement_members())),
            optional("unit", ArgumentKind::Integer).says(EDIT_SCHEMATIC_COMPONENT_UNIT),
        ],
    );
    assert(tool_4@.arguments =~= tool_at(4).arguments);
    list.push(tool_4);
    let tool_5 = entry(
        "get_schematic_component",
        GET_SCHEMATIC_COMPONENT,
        vec![
            required("schematic", ArgumentKind::Text),
            required("reference", ArgumentKind::Text),
        ],
    );
    assert(tool_5@.arguments =~= tool_at(5).arguments);
    list.push(tool_5);
    let tool_6 = entry(
        "list_schematic_components",
        LIST_SCHEMATIC_COMPONENTS,
        vec![
            required("schematic", ArgumentKind::Text),
        ],
    );
    assert(tool_6@.arguments =~= tool_at(6).arguments);
    list.push(tool_6);
    let tool_7 = entry(
        "move_schematic_component",
        MOVE_SCHEMATIC_COMPONENT,
        vec![
            required("schematic", ArgumentKind::Text),
            required("reference", ArgumentKind::Text),
            required("x", ArgumentKind::Number).says(MOVE_SCHEMATIC_COMPONENT_X),
            required("y", ArgumentKind::Number).says(MOVE_SCHEMATIC_COMPONENT_Y),
        ],
    );
    assert(tool_7@.arguments =~= tool_at(7).arguments);
    list.push(tool_7);
    let tool_8 = entry(
        "rotate_schematic_component",
        ROTATE_SCHEMATIC_COMPONENT,
        vec![
            required("schematic", ArgumentKind::Text),
            required("reference", ArgumentKind::Text),
            required("rotation", ArgumentKind::Number)
                .says(ROTATE_SCHEMATIC_COMPONENT_ROTATION),
        ],
    );
    assert(tool_8@.arguments =~= tool_at(8).arguments);
    list.push(tool_8);
    let tool_9 = entry(
        "move_connected",
        MOVE_CONNECTED,
        Vec::new(),
    );
    assert(tool_9@.arguments =~= tool_at(9).arguments);
    list.push(tool_9);
    let tool_10 = entry(
        "move_region",
        MOVE_REGION,
        vec![
            required("schematic", ArgumentKind::Text),
            required("x1", ArgumentKind::Number).says(MOVE_REGION_X1),
            required("y1", ArgumentKind::Number).says(MOVE_REGION_Y1),
            required("x2", ArgumentKind::Number).says(MOVE_REGION_X2),
            required("y2", ArgumentKind::Number).says(MOVE_REGION_Y2),
            required("dx", ArgumentKind::Number).says(MOVE_REGION_DX),
            required("dy", ArgumentKind::Number).says(MOVE_REGION_DY),
        ],
    );
    assert(tool_10@.arguments =~= tool_at(10).arguments);
    list.push(tool_10);
    let tool_11 = entry(
        "annotate_schematic",
        ANNOTATE_SCHEMATIC,
        vec![
            required("schematic", ArgumentKind::Text).says(ANNOTATE_SCHEMATIC_SCHEMATIC),
            optional("resolve_duplicates", ArgumentKind::Flag)
                .says(ANNOTATE_SCHEMATIC_RESOLVE_DUPLICATES)
                .otherwise(DefaultValue::Flag(false)),
            optional("dry_run", ArgumentKind::Flag)
                .says(ANNOTATE_SCHEMATIC_DRY_RUN)
                .otherwise(DefaultValue::Flag(false)),
            optional("project", ArgumentKind::Text).says(ANNOTATE_SCHEMATIC_PROJECT),
        ],
    );
    assert(tool_11@.arguments =~= tool_at(11).arguments);
    list.push(tool_11);
    let tool_12 = entry(
        "get_schematic_pin_locations",
        GET_SCHEMATIC_PIN_LOCATIONS,
        vec![
            required("schematic", ArgumentKind::Text),
            required("reference", ArgumentKind::Text),
        ],
    );
    assert(tool_12@.arguments =~= tool_at(12).arguments);
    list.push(tool_12);
    let tool_13 = entry(
        "batch_get_schematic_pin_locations",
        BATCH_GET_SCHEMATIC_PIN_LOCATIONS,
        vec![
            required("schematic", ArgumentKind::Text),
            required("references", ArgumentKind::TextList)
                .says(BATCH_GET_SCHEMATIC_PIN_LOCATIONS_REFERENCES),
        ],
    );
    assert(tool_13@.arguments =~= tool_at(13).arguments);
    list.push(tool_13);
    let tool_14 = entry(
        "add_component_annotation",
        ADD_COMPONENT_ANNOTATION,
        vec![
            required("schematic", ArgumentKind::Text).says(SCHEMATIC_FILE),
            required("reference", ArgumentKind::Text).says(ADD_COMPONENT_ANNOTATION_REFERENCE),
            required("key", ArgumentKind::Text).says(ADD_COMPONENT_ANNOTATION_KEY),
            required("value", ArgumentKind::Text).says(ADD_COMPONENT_ANNOTATION_VALUE),
        ],
    );
    assert(tool_14@.arguments =~= tool_at(14).arguments);
    list.push(tool_14);
    let tool_15 = entry(
        "group_components",
        GROUP_COMPONENTS,
        vec![
            required("schematic", ArgumentKind::Text).says(SCHEMATIC_FILE),
            required("references", ArgumentKind::TextList).says(GROUP_COMPONENTS_REFERENCES),
            required("group_name", ArgumentKind::Text).says(GROUP_COMPONENTS_GROUP_NAME),
        ],
    );
    assert(tool_15@.arguments =~= tool_at(15).arguments);
    list.push(tool_15);
    let tool_16 = entry(
        "replace_component",
        REPLACE_COMPONENT,
        vec![
            required("schematic", ArgumentKind::Text).says(SCHEMATIC_FILE),
            required("reference", ArgumentKind::Text).says(REPLACE_COMPONENT_REFERENCE),
            required("new_lib_id", ArgumentKind::Text).says(REPLACE_COMPONENT_NEW_LIB_ID),
            optional("unit", ArgumentKind::Integer)
                .says(REPLACE_COMPONENT_UNIT)
                .bounded(Bound::AtLeast(1)),
        ],
    );
    assert(tool_16@.arguments =~= tool_at(16).arguments);
    list.push(tool_16);
    let tool_17 = entry(
        "update_symbols_from_library",
        UPDATE_SYMBOLS_FROM_LIBRARY,
        vec![
            required("schematic", ArgumentKind::Text).says(SCHEMATIC_FILE),
            optional("references", ArgumentKind::TextList)
                .says(UPDATE_SYMBOLS_FROM_LIBRARY_REFERENCES),
            optional("dry_run", ArgumentKind::Flag)
                .says(UPDATE_SYMBOLS_FROM_LIBRARY_DRY_RUN)
                .otherwise(DefaultValue::Flag(false)),
            optional("allow_pin_moves", ArgumentKind::Flag)
                .says(UPDATE_SYMBOLS_FROM_LIBRARY_ALLOW_PIN_MOVES)
                .otherwise(DefaultValue::Flag(false)),
        ],
    );
    assert(tool_17@.arguments =~= tool_at(17).arguments);
    list.push(tool_17);
    let tool_18 = entry(
        "reset_schematic_field_positions",
        RESET_SCHEMATIC_FIELD_POSITIONS,
        vec![
            required("schematic", ArgumentKind::Text).says(SCHEMATIC_FILE),
            optional("references", ArgumentKind::TextList)
                .says(RESET_SCHEMATIC_FIELD_POSITIONS_REFERENCES),
            optional("dry_run", ArgumentKind::Flag)
                .says(RESET_SCHEMATIC_FIELD_POSITIONS_DRY_RUN)
                .otherwise(DefaultValue::Flag(false)),
        ],
    );
    assert(tool_18@.arguments =~= tool_at(18).arguments);
    list.push(tool_18);
    let tool_19 = entry(
        "get_schematic_view",
        GET_SCHEMATIC_VIEW,
        vec![
            required("schematic", ArgumentKind::Text),
        ],
    );
    assert(tool_19@.arguments =~= tool_at(19).arguments);
    list.push(tool_19);
    list
}

/// No two tools have the same name.
pub proof fn law_tool_names_are_unique(i: int, j: int)
    requires
        0 <= i < j < TOOL_COUNT,
    ensures
        tool_at(i).name != tool_at(j).name,
{
    reveal_strlit("create_schematic");
    reveal_strlit("set_schematic_page");
    reveal_strlit("add_schematic_component");
    reveal_strlit("delete_schematic_component");
    reveal_strlit("edit_schematic_component");
    reveal_strlit("get_schematic_component");
    reveal_strlit("list_schematic_components");
    reveal_strlit("move_schematic_component");
    reveal_strlit("rotate_schematic_component");
    reveal_strlit("move_connected");
    reveal_strlit("move_region");
    reveal_strlit("annotate_schematic");
    reveal_strlit("get_schematic_pin_locations");
    reveal_strlit("batch_get_schematic_pin_locations");
    reveal_strlit("add_component_annotation");
    reveal_strlit("group_components");
    reveal_strlit("replace_component");
    reveal_strlit("update_symbols_from_library");
    reveal_strlit("reset_schematic_field_positions");
    reveal_strlit("get_schematic_view");
    let (a, b) = (tool_at(i).name, tool_at(j).name);
    if a == b {
        assert(a.len() == b.len());
        if a.len() == 16 {
            assert(a[0] == b[0]);
        }
        if a.len() == 18 {
            assert(a[0] == b[0]);
        }
        if a.len() == 23 {
            assert(a[0] == b[0]);
        }
        if a.len() == 24 {
            assert(a[0] == b[0]);
        }
        if a.len() == 26 {
            assert(a[0] == b[0]);
        }
        if a.len() == 27 {
            assert(a[0] == b[0]);
        }
    }
}

} // verus!
