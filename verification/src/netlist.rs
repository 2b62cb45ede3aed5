//! Reading an exported netlist: one flattened source for the components of a
//! design and the net of each of their pads.

use crate::chars::{pairs_replaced, replace_pairs, trim_both, trimmed_end, trimmed_start};
use crate::sexp::{node_refs, opt_str, Sexp, SexpNode};
use crate::sync_types::{DesignComponent, ExportedDesign, SkippedComponent};
use crate::text::{concat2, concat3, concat5, owned, text_eq};
use crate::text_map::TextMap;
use vstd::prelude::*;
use vstd::string::*;

verus! {

/// Why a netlist is refused.
#[derive(PartialEq, Eq, Debug)]
pub enum NetlistError {
    NoComponents,
    Missing { tag: String },
    DuplicateReference { reference: String },
    NoSheetTimestamp,
    NoSymbolTimestamp,
    ZeroComponents,
    UnknownComponent { net: String, reference: String },
    PadInTwoNets { reference: String, pin: String },
}

/// The content of a [`NetlistError`].
pub enum NetlistFault {
    NoComponents,
    Missing { tag: Seq<char> },
    DuplicateReference { reference: Seq<char> },
    NoSheetTimestamp,
    NoSymbolTimestamp,
    ZeroComponents,
    UnknownComponent { net: Seq<char>, reference: Seq<char> },
    PadInTwoNets { reference: Seq<char>, pin: Seq<char> },
}

impl View for NetlistError {
    type V = NetlistFault;

    open spec fn view(&self) -> NetlistFault {
        match self {
            NetlistError::NoComponents => NetlistFault::NoComponents,
            NetlistError::Missing { tag } => NetlistFault::Missing { tag: tag@ },
            NetlistError::DuplicateReference { reference } => NetlistFault::DuplicateReference {
                reference: reference@,
            },
            NetlistError::NoSheetTimestamp => NetlistFault::NoSheetTimestamp,
            NetlistError::NoSymbolTimestamp => NetlistFault::NoSymbolTimestamp,
            NetlistError::ZeroComponents => NetlistFault::ZeroComponents,
            NetlistError::UnknownComponent { net, reference } => NetlistFault::UnknownComponent {
                net: net@,
                reference: reference@,
            },
            NetlistError::PadInTwoNets { reference, pin } => NetlistFault::PadInTwoNets {
                reference: reference@,
                pin: pin@,
            },
        }
    }
}

impl NetlistFault {
    /// The message of the fault.
    pub open spec fn text(self) -> Seq<char> {
        match self {
            NetlistFault::NoComponents => "KiCad netlist has no components section"@,
            NetlistFault::Missing { tag } => "KiCad netlist node is missing "@ + tag,
            NetlistFault::DuplicateReference { reference } =>
                "KiCad netlist contains duplicate component reference "@ + reference,
            NetlistFault::NoSheetTimestamp => "KiCad netlist component has no sheet timestamp"@,
            NetlistFault::NoSymbolTimestamp => "KiCad netlist component has no symbol timestamp"@,
            NetlistFault::ZeroComponents => "KiCad netlist contains zero components"@,
            NetlistFault::UnknownComponent { net, reference } => "net "@ + net
                + " refers to unknown component "@ + reference,
            NetlistFault::PadInTwoNets { reference, pin } => "component "@ + reference + " pad "@
                + pin + " appears in more than one net"@,
        }
    }
}

impl NetlistError {
    /// The message of the error.
    pub fn message(&self) -> (res: String)
        ensures
            res@ == self@.text(),
    {
        match self {
            NetlistError::NoComponents => owned("KiCad netlist has no components section"),
            NetlistError::Missing { tag } => concat2("KiCad netlist node is missing ", tag.as_str()),
            NetlistError::DuplicateReference { reference } => concat2(
                "KiCad netlist contains duplicate component reference ",
                reference.as_str(),
            ),
            NetlistError::NoSheetTimestamp => owned(
                "KiCad netlist component has no sheet timestamp",
            ),
            NetlistError::NoSymbolTimestamp => owned(
                "KiCad netlist component has no symbol timestamp",
            ),
            NetlistError::ZeroComponents => owned("KiCad netlist contains zero components"),
            NetlistError::UnknownComponent { net, reference } => {
                let mut message = concat3("net ", net.as_str(), " refers to unknown component ");
                message.append(reference.as_str());
                message
            },
            NetlistError::PadInTwoNets { reference, pin } => concat5(
                "component ",
                reference.as_str(),
                " pad ",
                pin.as_str(),
                " appears in more than one net",
            ),
        }
    }
}

/// A component as the netlist describes it.
pub struct ComponentView {
    pub reference: Seq<char>,
    pub value: Seq<char>,
    pub footprint_id: Seq<char>,
    pub symbol_path: Seq<char>,
    pub dnp: bool,
    pub pad_nets: Map<Seq<char>, Seq<char>>,
}

/// The texts of a map.
pub open spec fn texts_of(map: Map<Seq<char>, String>) -> Map<Seq<char>, Seq<char>> {
    map.map_values(|text: String| text@)
}

/// The content of a component.
pub open spec fn component_view(component: DesignComponent) -> ComponentView {
    ComponentView {
        reference: component.reference@,
        value: component.value@,
        footprint_id: component.footprint_id@,
        symbol_path: component.symbol_path@,
        dnp: component.dnp,
        pad_nets: texts_of(component.pad_nets@),
    }
}

/// The contents of a list of components.
pub open spec fn component_views(list: Seq<DesignComponent>) -> Seq<ComponentView> {
    Seq::new(list.len(), |i: int| component_view(list[i]))
}

/// The component with this reference.
pub open spec fn position_of(list: Seq<ComponentView>, reference: Seq<char>) -> Option<int>
    decreases list.len(),
{
    if list.len() == 0 {
        None
    } else if list.last().reference == reference {
        Some(list.len() - 1)
    } else {
        position_of(list.drop_last(), reference)
    }
}

/// The schematic identity made of a sheet's and a symbol's timestamps.
pub open spec fn symbol_path_of(sheet: Seq<char>, symbol: Seq<char>) -> Seq<char> {
    pairs_replaced(
        "/"@ + trimmed_end(trimmed_start(sheet, '/'), '/') + "/"@ + trimmed_end(
            trimmed_start(symbol, '/'),
            '/',
        ),
        '/',
    )
}

/// The sheet timestamp of a component.
pub open spec fn sheet_stamp(node: Sexp) -> Option<Seq<char>> {
    match node.first("sheetpath"@) {
        Some(sheet) => sheet.value_of("tstamps"@),
        None => None,
    }
}

/// A property that marks its component as not to be populated.
pub open spec fn is_dnp_property(property: Sexp) -> bool {
    property.value_of("name"@) == Some("dnp"@) || property.text_at(1) == Some("dnp"@)
}

/// One of the component's properties marks it as not to be populated.
pub open spec fn has_dnp(node: Sexp) -> bool {
    exists|i: int|
        0 <= i < node.all("property"@).len() && is_dnp_property(
            #[trigger] node.all("property"@)[i],
        )
}

/// The component of a `comp` node, given those before it.
pub open spec fn component_of(
    earlier: Seq<ComponentView>,
    node: Sexp,
) -> Result<ComponentView, NetlistFault> {
    match node.value_of("ref"@) {
        None => Err(NetlistFault::Missing { tag: "ref"@ }),
        Some(reference) => if position_of(earlier, reference) is Some {
            Err(NetlistFault::DuplicateReference { reference })
        } else {
            match (sheet_stamp(node), node.value_of("tstamps"@)) {
                (None, _) => Err(NetlistFault::NoSheetTimestamp),
                (_, None) => Err(NetlistFault::NoSymbolTimestamp),
                (Some(sheet), Some(symbol)) => match (
                    node.value_of("value"@),
                    node.value_of("footprint"@),
                ) {
                    (None, _) => Err(NetlistFault::Missing { tag: "value"@ }),
                    (_, None) => Err(NetlistFault::Missing { tag: "footprint"@ }),
                    (Some(value), Some(footprint_id)) => Ok(
                        ComponentView {
                            reference,
                            value,
                            footprint_id,
                            symbol_path: symbol_path_of(sheet, symbol),
                            dnp: has_dnp(node),
                            pad_nets: Map::empty(),
                        },
                    ),
                },
            }
        },
    }
}

/// The components of these nodes, or the first fault among them.
pub open spec fn components_of(nodes: Seq<Sexp>) -> Result<Seq<ComponentView>, NetlistFault>
    decreases nodes.len(),
{
    if nodes.len() == 0 {
        Ok(Seq::empty())
    } else {
        match components_of(nodes.drop_last()) {
            Err(fault) => Err(fault),
            Ok(list) => match component_of(list, nodes.last()) {
                Err(fault) => Err(fault),
                Ok(component) => Ok(list.push(component)),
            },
        }
    }
}

/// The components after a pad of one of them was put on a net.
pub open spec fn with_pad(
    list: Seq<ComponentView>,
    net: Seq<char>,
    node: Sexp,
) -> Result<Seq<ComponentView>, NetlistFault> {
    match (node.value_of("ref"@), node.value_of("pin"@)) {
        (None, _) => Err(NetlistFault::Missing { tag: "ref"@ }),
        (_, None) => Err(NetlistFault::Missing { tag: "pin"@ }),
        (Some(reference), Some(pin)) => match position_of(list, reference) {
            None => Err(NetlistFault::UnknownComponent { net, reference }),
            Some(index) => if list[index].pad_nets.contains_key(pin) {
                Err(NetlistFault::PadInTwoNets { reference, pin })
            } else {
                Ok(
                    list.update(
                        index,
                        ComponentView {
                            pad_nets: list[index].pad_nets.insert(pin, net),
                            ..list[index]
                        },
                    ),
                )
            },
        },
    }
}

/// The components after these nodes of a net were read.
pub open spec fn with_pads(
    list: Seq<ComponentView>,
    net: Seq<char>,
    nodes: Seq<Sexp>,
) -> Result<Seq<ComponentView>, NetlistFault>
    decreases nodes.len(),
{
    if nodes.len() == 0 {
        Ok(list)
    } else {
        match with_pads(list, net, nodes.drop_last()) {
            Err(fault) => Err(fault),
            Ok(done) => with_pad(done, net, nodes.last()),
        }
    }
}

/// The components after a net was read.
pub open spec fn with_net(
    list: Seq<ComponentView>,
    node: Sexp,
) -> Result<Seq<ComponentView>, NetlistFault> {
    match node.value_of("name"@) {
        None => Err(NetlistFault::Missing { tag: "name"@ }),
        Some(net) => with_pads(list, net, node.all("node"@)),
    }
}

/// The components after these nets were read.
pub open spec fn with_nets(
    list: Seq<ComponentView>,
    nodes: Seq<Sexp>,
) -> Result<Seq<ComponentView>, NetlistFault>
    decreases nodes.len(),
{
    if nodes.len() == 0 {
        Ok(list)
    } else {
        match with_nets(list, nodes.drop_last()) {
            Err(fault) => Err(fault),
            Ok(done) => with_net(done, nodes.last()),
        }
    }
}

/// The components of a netlist with their nets, or the first fault in it.
pub open spec fn netlist_components(root: Sexp) -> Result<Seq<ComponentView>, NetlistFault> {
    match root.first("components"@) {
        None => Err(NetlistFault::NoComponents),
        Some(section) => match components_of(section.all("comp"@)) {
            Err(fault) => Err(fault),
            Ok(list) => if list.len() == 0 {
                Err(NetlistFault::ZeroComponents)
            } else {
                match root.first("nets"@) {
                    None => Ok(list),
                    Some(nets) => with_nets(list, nets.all("net"@)),
                }
            },
        },
    }
}

/// The text that follows `tag` in a node, which must be there.
pub fn required_value(node: &SexpNode, tag: &str) -> (res: Result<String, NetlistError>)
    ensures
        match node@.value_of(tag@) {
            Some(text) => res matches Ok(value) && value@ == text,
            None => res matches Err(error) && error@ == (NetlistFault::Missing { tag: tag@ }),
        },
{
    match node.find_str(tag) {
        Some(text) => Ok(owned(text)),
        None => Err(NetlistError::Missing { tag: owned(tag) }),
    }
}

fn join_stamps(sheet: &str, symbol: &str) -> (res: String)
    ensures
        res@ == symbol_path_of(sheet@, symbol@),
{
    let sheet_part = trim_both(sheet, '/');
    let symbol_part = trim_both(symbol, '/');
    let mut path = concat3("/", sheet_part.as_str(), "/");
    path.append(symbol_part.as_str());
    replace_pairs(path.as_str(), '/')
}

fn names_dnp(text: Option<&str>) -> (res: bool)
    ensures
        res == (opt_str(text) == Some("dnp"@)),
{
    match text {
        Some(name) => text_eq(name, "dnp"),
        None => false,
    }
}

fn find_dnp(node: &SexpNode) -> (res: bool)
    ensures
        res == has_dnp(node@),
{
    let properties = node.find_all("property");
    let ghost all = node@.all("property"@);
    assert(node_refs(properties@).len() == properties@.len());
    let mut i: usize = 0;
    while i < properties.len()
        invariant
            i <= properties@.len(),
            all == node_refs(properties@),
            all == node@.all("property"@),
            forall|j: int| 0 <= j < i ==> !is_dnp_property(#[trigger] all[j]),
        decreases properties@.len() - i,
    {
        let property = properties[i];
        assert(all[i as int] == property@);
        if names_dnp(property.find_str("name")) || names_dnp(property.str_at(1)) {
            return true;
        }
        i += 1;
    }
    false
}

spec fn indexes_components(map: TextMap<usize>, list: Seq<ComponentView>) -> bool {
    forall|key: Seq<char>| #[trigger]
        position_of(list, key) == (if map@.contains_key(key) {
            Some(map@[key] as int)
        } else {
            None
        })
}

fn read_component(
    node: &SexpNode,
    by_reference: &TextMap<usize>,
    Ghost(earlier): Ghost<Seq<ComponentView>>,
) -> (res: Result<DesignComponent, NetlistError>)
    requires
        indexes_components(*by_reference, earlier),
    ensures
        match component_of(earlier, node@) {
            Ok(view) => res matches Ok(component) && component_view(component) == view,
            Err(fault) => res matches Err(error) && error@ == fault,
        },
{
    let reference = match required_value(node, "ref") {
        Ok(text) => text,
        Err(error) => {
            return Err(error);
        },
    };
    assert(position_of(earlier, reference@) is Some <==> by_reference@.contains_key(reference@));
    if by_reference.contains_key(reference.as_str()) {
        return Err(NetlistError::DuplicateReference { reference });
    }
    let sheet_text: Option<&str> = match node.find("sheetpath") {
        Some(sheet) => sheet.find_str("tstamps"),
        None => None,
    };
    assert(opt_str(sheet_text) == sheet_stamp(node@));
    let sheet = match sheet_text {
        Some(text) => text,
        None => {
            return Err(NetlistError::NoSheetTimestamp);
        },
    };
    let symbol = match node.find_str("tstamps") {
        Some(text) => text,
        None => {
            return Err(NetlistError::NoSymbolTimestamp);
        },
    };
    let symbol_path = join_stamps(sheet, symbol);
    let dnp = find_dnp(node);
    let value = match required_value(node, "value") {
        Ok(text) => text,
        Err(error) => {
            return Err(error);
        },
    };
    let footprint_id = match required_value(node, "footprint") {
        Ok(text) => text,
        Err(error) => {
            return Err(error);
        },
    };
    let component = DesignComponent {
        reference,
        value,
        footprint_id,
        symbol_path,
        dnp,
        pad_nets: TextMap::new(),
    };
    assert(texts_of(component.pad_nets@) =~= Map::empty());
    Ok(component)
}

proof fn lemma_position(list: Seq<ComponentView>, key: Seq<char>)
    ensures
        position_of(list, key) matches Some(k) ==> 0 <= k < list.len() && list[k].reference == key,
    decreases list.len(),
{
    if list.len() > 0 {
        lemma_position(list.drop_last(), key);
    }
}

/// A change that keeps the references keeps where each is found.
proof fn lemma_same_references(a: Seq<ComponentView>, b: Seq<ComponentView>, key: Seq<char>)
    requires
        a.len() == b.len(),
        forall|i: int| 0 <= i < a.len() ==> (#[trigger] a[i]).reference == b[i].reference,
    ensures
        position_of(a, key) == position_of(b, key),
    decreases a.len(),
{
    if a.len() > 0 {
        assert(a[a.len() - 1].reference == b[b.len() - 1].reference);
        assert forall|i: int| 0 <= i < a.drop_last().len() implies (#[trigger]
        a.drop_last()[i]).reference == b.drop_last()[i].reference by {
            assert(a[i].reference == b[i].reference);
        }
        lemma_same_references(a.drop_last(), b.drop_last(), key);
    }
}

fn read_components(
    section: &SexpNode,
    by_reference: &mut TextMap<usize>,
) -> (res: Result<Vec<DesignComponent>, NetlistError>)
    requires
        old(by_reference)@ == Map::<Seq<char>, usize>::empty(),
    ensures
        match components_of(section@.all("comp"@)) {
            Ok(list) => res matches Ok(components) && component_views(components@) == list
                && indexes_components(*final(by_reference), list),
            Err(fault) => res matches Err(error) && error@ == fault,
        },
{
    let nodes = section.find_all("comp");
    let ghost all = section@.all("comp"@);
    assert(node_refs(nodes@).len() == nodes@.len());
    let mut components: Vec<DesignComponent> = Vec::new();
    let mut i: usize = 0;
    assert(all.take(0) =~= Seq::empty());
    assert(component_views(components@) =~= Seq::empty());
    while i < nodes.len()
        invariant
            i <= nodes@.len(),
            components@.len() == i,
            all == node_refs(nodes@),
            all == section@.all("comp"@),
            components_of(all.take(i as int)) == Ok::<_, NetlistFault>(
                component_views(components@),
            ),
            indexes_components(*by_reference, component_views(components@)),
        decreases nodes@.len() - i,
    {
        let ghost earlier = component_views(components@);
        let ghost before = *by_reference;
        let ghost listed = components@;
        proof {
            assert(all.take(i + 1).drop_last() =~= all.take(i as int));
            assert(all.take(i + 1).last() == nodes@[i as int]@);
        }
        match read_component(nodes[i], by_reference, Ghost(earlier)) {
            Ok(component) => {
                by_reference.insert(component.reference.clone(), i);
                let ghost view = component_view(component);
                components.push(component);
                proof {
                    let now = component_views(components@);
                    assert(now =~= earlier.push(view));
                    assert forall|key: Seq<char>| #[trigger]
                        position_of(now, key) == (if by_reference@.contains_key(key) {
                            Some(by_reference@[key] as int)
                        } else {
                            None
                        }) by {
                        assert(now.drop_last() =~= earlier);
                        assert(position_of(earlier, key) == (if before@.contains_key(key) {
                            Some(before@[key] as int)
                        } else {
                            None
                        }));
                    }
                }
            },
            Err(error) => {
                proof {
                    lemma_fault_stays(all, (i + 1) as int);
                }
                return Err(error);
            },
        }
        i += 1;
    }
    assert(all.take(i as int) =~= all);
    Ok(components)
}

proof fn lemma_fault_stays(all: Seq<Sexp>, n: int)
    requires
        0 <= n <= all.len(),
        components_of(all.take(n)) is Err,
    ensures
        components_of(all) == components_of(all.take(n)),
    decreases all.len() - n,
{
    if n == all.len() {
        assert(all.take(n) =~= all);
    } else {
        assert(all.take(n + 1).drop_last() =~= all.take(n));
        lemma_fault_stays(all, n + 1);
    }
}

proof fn lemma_pads_fault_stays(list: Seq<ComponentView>, net: Seq<char>, all: Seq<Sexp>, n: int)
    requires
        0 <= n <= all.len(),
        with_pads(list, net, all.take(n)) is Err,
    ensures
        with_pads(list, net, all) == with_pads(list, net, all.take(n)),
    decreases all.len() - n,
{
    if n == all.len() {
        assert(all.take(n) =~= all);
    } else {
        assert(all.take(n + 1).drop_last() =~= all.take(n));
        lemma_pads_fault_stays(list, net, all, n + 1);
    }
}

proof fn lemma_nets_fault_stays(list: Seq<ComponentView>, all: Seq<Sexp>, n: int)
    requires
        0 <= n <= all.len(),
        with_nets(list, all.take(n)) is Err,
    ensures
        with_nets(list, all) == with_nets(list, all.take(n)),
    decreases all.len() - n,
{
    if n == all.len() {
        assert(all.take(n) =~= all);
    } else {
        assert(all.take(n + 1).drop_last() =~= all.take(n));
        lemma_nets_fault_stays(list, all, n + 1);
    }
}

fn read_pad(
    node: &SexpNode,
    net: &String,
    by_reference: &TextMap<usize>,
    components: &mut Vec<DesignComponent>,
) -> (res: Result<(), NetlistError>)
    requires
        indexes_components(*by_reference, component_views(old(components)@)),
    ensures
        match with_pad(component_views(old(components)@), net@, node@) {
            Ok(list) => res is Ok && component_views(final(components)@) == list
                && indexes_components(*by_reference, list),
            Err(fault) => res matches Err(error) && error@ == fault,
        },
{
    let ghost before = component_views(components@);
    let reference = match required_value(node, "ref") {
        Ok(text) => text,
        Err(error) => {
            return Err(error);
        },
    };
    let pin = match required_value(node, "pin") {
        Ok(text) => text,
        Err(error) => {
            return Err(error);
        },
    };
    proof {
        lemma_position(before, reference@);
        assert(position_of(before, reference@) is Some
            <==> by_reference@.contains_key(reference@));
    }
    let index: usize = match by_reference.get(reference.as_str()) {
        Some(index) => *index,
        None => {
            return Err(NetlistError::UnknownComponent { net: net.clone(), reference });
        },
    };
    assert(before[index as int] == component_view(components@[index as int]));
    if components[index].pad_nets.contains_key(pin.as_str()) {
        return Err(NetlistError::PadInTwoNets { reference, pin });
    }
    let ghost old_components = components@;
    let ghost name = pin@;
    components[index].pad_nets.insert(pin, net.clone());
    proof {
        let now = component_views(components@);
        let wanted = before.update(
            index as int,
            ComponentView {
                pad_nets: before[index as int].pad_nets.insert(name, net@),
                ..before[index as int]
            },
        );
        assert(texts_of(components@[index as int].pad_nets@) =~= texts_of(
            old_components[index as int].pad_nets@,
        ).insert(name, net@));
        assert(now =~= wanted);
        assert forall|key: Seq<char>| #[trigger]
            position_of(now, key) == (if by_reference@.contains_key(key) {
                Some(by_reference@[key] as int)
            } else {
                None
            }) by {
            lemma_same_references(before, now, key);
        }
    }
    Ok(())
}

fn read_net(
    node: &SexpNode,
    by_reference: &TextMap<usize>,
    components: &mut Vec<DesignComponent>,
) -> (res: Result<(), NetlistError>)
    requires
        indexes_components(*by_reference, component_views(old(components)@)),
    ensures
        match with_net(component_views(old(components)@), node@) {
            Ok(list) => res is Ok && component_views(final(components)@) == list
                && indexes_components(*by_reference, list),
            Err(fault) => res matches Err(error) && error@ == fault,
        },
{
    let ghost start = component_views(components@);
    let net = match required_value(node, "name") {
        Ok(text) => text,
        Err(error) => {
            return Err(error);
        },
    };
    let nodes = node.find_all("node");
    let ghost all = node@.all("node"@);
    assert(node_refs(nodes@).len() == nodes@.len());
    let mut i: usize = 0;
    assert(all.take(0) =~= Seq::empty());
    while i < nodes.len()
        invariant
            i <= nodes@.len(),
            all == node_refs(nodes@),
            with_pads(start, net@, all.take(i as int)) == Ok::<_, NetlistFault>(
                component_views(components@),
            ),
            indexes_components(*by_reference, component_views(components@)),
            with_net(start, node@) == with_pads(start, net@, all),
            start == component_views(old(components)@),
        decreases nodes@.len() - i,
    {
        proof {
            assert(all.take(i + 1).drop_last() =~= all.take(i as int));
            assert(all.take(i + 1).last() == nodes@[i as int]@);
        }
        match read_pad(nodes[i], &net, by_reference, components) {
            Ok(_) => {},
            Err(error) => {
                proof {
                    lemma_pads_fault_stays(start, net@, all, (i + 1) as int);
                }
                return Err(error);
            },
        }
        i += 1;
    }
    assert(all.take(i as int) =~= all);
    Ok(())
}

fn read_nets(
    section: &SexpNode,
    by_reference: &TextMap<usize>,
    components: &mut Vec<DesignComponent>,
) -> (res: Result<(), NetlistError>)
    requires
        indexes_components(*by_reference, component_views(old(components)@)),
    ensures
        match with_nets(component_views(old(components)@), section@.all("net"@)) {
            Ok(list) => res is Ok && component_views(final(components)@) == list,
            Err(fault) => res matches Err(error) && error@ == fault,
        },
{
    let ghost start = component_views(components@);
    let nodes = section.find_all("net");
    let ghost all = section@.all("net"@);
    assert(node_refs(nodes@).len() == nodes@.len());
    let mut i: usize = 0;
    assert(all.take(0) =~= Seq::empty());
    while i < nodes.len()
        invariant
            i <= nodes@.len(),
            all == node_refs(nodes@),
            all == section@.all("net"@),
            start == component_views(old(components)@),
            with_nets(start, all.take(i as int)) == Ok::<_, NetlistFault>(
                component_views(components@),
            ),
            indexes_components(*by_reference, component_views(components@)),
        decreases nodes@.len() - i,
    {
        proof {
            assert(all.take(i + 1).drop_last() =~= all.take(i as int));
            assert(all.take(i + 1).last() == nodes@[i as int]@);
        }
        match read_net(nodes[i], by_reference, components) {
            Ok(_) => {},
            Err(error) => {
                proof {
                    lemma_nets_fault_stays(start, all, (i + 1) as int);
                }
                return Err(error);
            },
        }
        i += 1;
    }
    assert(all.take(i as int) =~= all);
    Ok(())
}

/// Reads the components of a netlist and the net of each of their pads.
pub fn parse_exported_netlist(root: &SexpNode) -> (res: Result<ExportedDesign, NetlistError>)
    ensures
        match netlist_components(root@) {
            Ok(list) => res matches Ok(design) && component_views(design.components@) == list
                && design.skipped@.len() == 0,
            Err(fault) => res matches Err(error) && error@ == fault,
        },
{
    let section = match root.find("components") {
        Some(node) => node,
        None => {
            return Err(NetlistError::NoComponents);
        },
    };
    let mut by_reference: TextMap<usize> = TextMap::new();
    let mut components = match read_components(section, &mut by_reference) {
        Ok(list) => list,
        Err(error) => {
            return Err(error);
        },
    };
    assert(component_views(components@).len() == components@.len());
    if components.len() == 0 {
        return Err(NetlistError::ZeroComponents);
    }
    match root.find("nets") {
        Some(nets) => {
            match read_nets(nets, &by_reference, &mut components) {
                Ok(_) => {},
                Err(error) => {
                    return Err(error);
                },
            }
        },
        None => {},
    }
    let skipped: Vec<SkippedComponent> = Vec::new();
    Ok(ExportedDesign { components, skipped })
}

/// The references of the list are all different.
pub open spec fn distinct_references(list: Seq<ComponentView>) -> bool {
    forall|i: int, j: int|
        0 <= i < j < list.len() ==> (#[trigger] list[i]).reference != (#[trigger] list[j]).reference
}

/// An accepted netlist has components, and no reference occurs twice.
pub proof fn law_accepted_netlists_name_each_component_once(root: Sexp)
    ensures
        netlist_components(root) matches Ok(list) ==> list.len() > 0 && distinct_references(list),
{
    if netlist_components(root) is Ok {
        let section = root.first("components"@)->0;
        let nodes = section.all("comp"@);
        lemma_components_distinct(nodes);
        let list = components_of(nodes)->Ok_0;
        if root.first("nets"@) is Some {
            lemma_nets_keep_references(list, root.first("nets"@)->0.all("net"@));
            let done = netlist_components(root)->Ok_0;
            assert forall|i: int, j: int| 0 <= i < j < done.len() implies (#[trigger]
            done[i]).reference != (#[trigger] done[j]).reference by {
                assert(list[i].reference == done[i].reference);
                assert(list[j].reference == done[j].reference);
            }
        }
    }
}

proof fn lemma_finds_position(list: Seq<ComponentView>, k: int)
    requires
        0 <= k < list.len(),
    ensures
        position_of(list, list[k].reference) is Some,
    decreases list.len(),
{
    if k < list.len() - 1 {
        assert(list.drop_last()[k] == list[k]);
        lemma_finds_position(list.drop_last(), k);
    }
}

proof fn lemma_components_distinct(nodes: Seq<Sexp>)
    ensures
        components_of(nodes) matches Ok(list) ==> distinct_references(list),
    decreases nodes.len(),
{
    if nodes.len() > 0 {
        lemma_components_distinct(nodes.drop_last());
        if components_of(nodes) is Ok {
            let earlier = components_of(nodes.drop_last())->Ok_0;
            let list = components_of(nodes)->Ok_0;
            assert forall|i: int, j: int| 0 <= i < j < list.len() implies (#[trigger]
            list[i]).reference != (#[trigger] list[j]).reference by {
                assert(list[i] == earlier[i]);
                if j < earlier.len() {
                    assert(list[j] == earlier[j]);
                } else {
                    lemma_finds_position(earlier, i);
                }
            }
        }
    }
}

spec fn same_references(a: Seq<ComponentView>, b: Seq<ComponentView>) -> bool {
    &&& a.len() == b.len()
    &&& forall|i: int| 0 <= i < a.len() ==> (#[trigger] a[i]).reference == b[i].reference
}

proof fn lemma_pads_keep_references(list: Seq<ComponentView>, net: Seq<char>, nodes: Seq<Sexp>)
    ensures
        with_pads(list, net, nodes) matches Ok(done) ==> same_references(list, done),
    decreases nodes.len(),
{
    if nodes.len() > 0 && with_pads(list, net, nodes) is Ok {
        lemma_pads_keep_references(list, net, nodes.drop_last());
        let done = with_pads(list, net, nodes.drop_last())->Ok_0;
        let reference = nodes.last().value_of("ref"@)->0;
        lemma_position(done, reference);
    }
}

proof fn lemma_nets_keep_references(list: Seq<ComponentView>, nodes: Seq<Sexp>)
    ensures
        with_nets(list, nodes) matches Ok(done) ==> same_references(list, done),
    decreases nodes.len(),
{
    if nodes.len() > 0 && with_nets(list, nodes) is Ok {
        lemma_nets_keep_references(list, nodes.drop_last());
        let done = with_nets(list, nodes.drop_last())->Ok_0;
        let net = nodes.last().value_of("name"@)->0;
        lemma_pads_keep_references(done, net, nodes.last().all("node"@));
    }
}

} // verus!
