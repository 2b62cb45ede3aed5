//! Footprint items as a live board holds them: reading them for a plan and
//! writing a planned change into them.
//!
//! A definition mixes pads, graphics and text in one list, so the declared
//! type of an item is what tells them apart. Only items that declare
//! themselves pads are ever touched.

use crate::chars::{parts_between, parts_from, split_parts};
use crate::netlist::texts_of;
use crate::sync_types::{BoardFootprint, Point};
use crate::text::{concat2, concat3, join, joined, opt_text, owned, text_eq, texts};
use crate::text_map::TextMap;
use vstd::prelude::*;
use vstd::string::*;

verus! {

/// The net of a pad. Codes are internal to KiCad: one is given where the board
/// has it, and otherwise the name lets KiCad create the net.
#[derive(PartialEq, Eq, Debug)]
pub struct PadNet {
    pub code: Option<i32>,
    pub name: String,
}

/// One item of a footprint's definition.
#[derive(PartialEq, Eq, Debug)]
pub enum FootprintChild {
    /// A pad.
    Pad { number: String, net: Option<PadNet> },
    /// An item that declares itself a pad and cannot be read as one.
    UnreadablePad { bytes: Vec<u8> },
    /// Any other item, as it was packed.
    Other { declared: String, bytes: Vec<u8> },
}

/// A named text field.
#[derive(PartialEq, Eq, Debug)]
pub struct FieldItem {
    pub name: String,
    pub text: Option<String>,
}

/// The flags of a footprint.
#[derive(Clone, Copy, PartialEq, Eq, Debug, Structural)]
pub struct FootprintAttributes {
    pub do_not_populate: bool,
    pub not_in_schematic: bool,
}

/// The name of a footprint in a library.
#[derive(PartialEq, Eq, Debug)]
pub struct LibraryId {
    pub library_nickname: String,
    pub entry_name: String,
}

/// What a footprint is made of.
#[derive(PartialEq, Eq, Debug)]
pub struct FootprintDefinition {
    pub id: Option<LibraryId>,
    pub reference_field: Option<FieldItem>,
    pub value_field: Option<FieldItem>,
    pub attributes: Option<FootprintAttributes>,
    pub items: Vec<FootprintChild>,
}

/// A footprint on the board.
#[derive(PartialEq, Eq, Debug)]
pub struct FootprintItem {
    pub id: Option<String>,
    pub reference_field: Option<FieldItem>,
    pub value_field: Option<FieldItem>,
    pub definition: Option<FootprintDefinition>,
    pub symbol_path: Option<Vec<String>>,
    pub attributes: Option<FootprintAttributes>,
    pub position: Option<Point>,
    pub rotation: Option<i64>,
    pub layer: String,
    pub locked: bool,
}

/// Why a change cannot be written into a footprint.
#[derive(PartialEq, Eq, Debug)]
pub enum FootprintError {
    NoDefinition,
    UnreadablePad { reference: String },
    MissingPad { reference: String, number: String },
    Stale { kiid: String },
    NotAnUpdate,
}

impl FootprintError {
    /// The message of the error.
    pub open spec fn text(self) -> Seq<char> {
        match self {
            FootprintError::NoDefinition => "board footprint has no library definition"@,
            FootprintError::UnreadablePad { reference } => "footprint "@ + reference@
                + " has a pad KiCad sent in a form Konnect cannot read"@,
            FootprintError::MissingPad { reference, number } => "footprint "@ + reference@
                + " has no pad "@ + number@,
            FootprintError::Stale { kiid } => "planned footprint "@ + kiid@
                + " no longer matches the live board item"@,
            FootprintError::NotAnUpdate =>
                "an add change cannot update an existing footprint"@,
        }
    }

    /// The message of the error.
    pub fn message(&self) -> (res: String)
        ensures
            res@ == self.text(),
    {
        match self {
            FootprintError::NoDefinition => owned("board footprint has no library definition"),
            FootprintError::UnreadablePad { reference } => concat3(
                "footprint ",
                reference.as_str(),
                " has a pad KiCad sent in a form Konnect cannot read",
            ),
            FootprintError::MissingPad { reference, number } => {
                let mut message = concat3("footprint ", reference.as_str(), " has no pad ");
                message.append(number.as_str());
                message
            },
            FootprintError::Stale { kiid } => concat3(
                "planned footprint ",
                kiid.as_str(),
                " no longer matches the live board item",
            ),
            FootprintError::NotAnUpdate => owned(
                "an add change cannot update an existing footprint",
            ),
        }
    }
}

/// The field has this name and this text.
pub open spec fn field_is(field: Option<FieldItem>, name: Seq<char>, value: Seq<char>) -> bool {
    field is Some && field->0.name@ == name && opt_text(field->0.text) == Some(value)
}

/// The text of a field; a field without one has the empty text.
pub open spec fn text_of_field(field: Option<FieldItem>) -> Seq<char> {
    match field {
        Some(item) => match item.text {
            Some(text) => text@,
            None => Seq::empty(),
        },
        None => Seq::empty(),
    }
}

/// Gives a field its name and its text.
pub fn set_field_text(field: &mut Option<FieldItem>, name: &str, value: &str)
    ensures
        field_is(*final(field), name@, value@),
{
    *field = Some(FieldItem { name: owned(name), text: Some(owned(value)) });
}

/// The text of a field.
pub fn field_text(field: &Option<FieldItem>) -> (res: String)
    ensures
        res@ == text_of_field(*field),
{
    match field {
        Some(item) => match &item.text {
            Some(text) => text.clone(),
            None => String::new(),
        },
        None => String::new(),
    }
}

/// The net that a plan gives to a pad.
pub open spec fn net_is(
    net: Option<PadNet>,
    number: Seq<char>,
    pad_nets: Map<Seq<char>, String>,
    net_codes: Map<Seq<char>, i32>,
) -> bool {
    if pad_nets.contains_key(number) {
        &&& net is Some
        &&& net->0.name@ == pad_nets[number]@
        &&& net->0.code == (if net_codes.contains_key(pad_nets[number]@) {
            Some(net_codes[pad_nets[number]@])
        } else {
            None
        })
    } else {
        net is None
    }
}

/// An item after a plan was written into it: a pad keeps its number and takes
/// its planned net, and anything else stays exactly as it was.
pub open spec fn child_updated(
    before: FootprintChild,
    after: FootprintChild,
    pad_nets: Map<Seq<char>, String>,
    net_codes: Map<Seq<char>, i32>,
) -> bool {
    match before {
        FootprintChild::Pad { number, .. } => match after {
            FootprintChild::Pad { number: kept, net } => kept@ == number@ && net_is(
                net,
                number@,
                pad_nets,
                net_codes,
            ),
            _ => false,
        },
        _ => after == before,
    }
}

/// The items have a pad with this number.
pub open spec fn has_pad(items: Seq<FootprintChild>, number: Seq<char>) -> bool {
    exists|i: int|
        0 <= i < items.len() && #[trigger] items[i] is Pad && items[i]->number@ == number
}

/// One of the items declares itself a pad and cannot be read as one.
pub open spec fn has_unreadable(items: Seq<FootprintChild>) -> bool {
    exists|i: int| 0 <= i < items.len() && #[trigger] items[i] is UnreadablePad
}

/// The flags with the one for population set.
pub open spec fn with_dnp(attributes: Option<FootprintAttributes>, dnp: bool) -> Option<
    FootprintAttributes,
> {
    Some(
        FootprintAttributes {
            do_not_populate: dnp,
            not_in_schematic: match attributes {
                Some(flags) => flags.not_in_schematic,
                None => false,
            },
        },
    )
}

/// The footprint after a plan was written into it. What the schematic does not
/// own is as it was.
pub open spec fn fields_applied(
    before: FootprintItem,
    after: FootprintItem,
    reference: Seq<char>,
    value: Seq<char>,
    symbol_path: Seq<char>,
    dnp: bool,
    pad_nets: Map<Seq<char>, String>,
    net_codes: Map<Seq<char>, i32>,
) -> bool {
    &&& field_is(after.reference_field, "Reference"@, reference)
    &&& field_is(after.value_field, "Value"@, value)
    &&& after.symbol_path is Some
    &&& texts(after.symbol_path->0@) == parts_between(symbol_path, '/')
    &&& after.attributes == with_dnp(before.attributes, dnp)
    &&& before.definition is Some
    &&& after.definition is Some
    &&& field_is(after.definition->0.reference_field, "Reference"@, reference)
    &&& field_is(after.definition->0.value_field, "Value"@, value)
    &&& after.definition->0.attributes == with_dnp(before.definition->0.attributes, dnp)
    &&& after.definition->0.id == before.definition->0.id
    &&& after.definition->0.items@.len() == before.definition->0.items@.len()
    &&& forall|i: int|
        0 <= i < before.definition->0.items@.len() ==> child_updated(
            #[trigger] before.definition->0.items@[i],
            after.definition->0.items@[i],
            pad_nets,
            net_codes,
        )
    &&& after.id == before.id
    &&& after.position == before.position
    &&& after.rotation == before.rotation
    &&& after.layer == before.layer
    &&& after.locked == before.locked
}

fn set_dnp(attributes: Option<FootprintAttributes>, dnp: bool) -> (res: Option<
    FootprintAttributes,
>)
    ensures
        res == with_dnp(attributes, dnp),
{
    Some(
        FootprintAttributes {
            do_not_populate: dnp,
            not_in_schematic: match attributes {
                Some(flags) => flags.not_in_schematic,
                None => false,
            },
        },
    )
}

fn planned_net(number: &str, pad_nets: &TextMap<String>, net_codes: &TextMap<i32>) -> (res: Option<
    PadNet,
>)
    ensures
        net_is(res, number@, pad_nets@, net_codes@),
{
    match pad_nets.get(number) {
        Some(name) => Some(
            PadNet {
                code: match net_codes.get(name.as_str()) {
                    Some(code) => Some(*code),
                    None => None,
                },
                name: name.clone(),
            },
        ),
        None => None,
    }
}

fn update_children(
    items: Vec<FootprintChild>,
    pad_nets: &TextMap<String>,
    net_codes: &TextMap<i32>,
) -> (res: Option<Vec<FootprintChild>>)
    ensures
        match res {
            None => has_unreadable(items@),
            Some(done) => !has_unreadable(items@) && done@.len() == items@.len() && forall|i: int|
                0 <= i < items@.len() ==> child_updated(
                    #[trigger] items@[i],
                    done@[i],
                    pad_nets@,
                    net_codes@,
                ),
        },
{
    let ghost all = items@;
    let mut done = items;
    let mut i: usize = 0;
    while i < done.len()
        invariant
            i <= done@.len(),
            done@.len() == all.len(),
            all == items@,
            forall|j: int| 0 <= j < i ==> !(#[trigger] all[j] is UnreadablePad),
            forall|j: int|
                0 <= j < i ==> child_updated(#[trigger] all[j], done@[j], pad_nets@, net_codes@),
            forall|j: int| i <= j < all.len() ==> #[trigger] done@[j] == all[j],
        decreases done@.len() - i,
    {
        let replaced: Option<FootprintChild> = match &done[i] {
            FootprintChild::UnreadablePad { .. } => {
                assert(all[i as int] is UnreadablePad);
                return None;
            },
            FootprintChild::Pad { number, .. } => Some(
                FootprintChild::Pad {
                    number: number.clone(),
                    net: planned_net(number.as_str(), pad_nets, net_codes),
                },
            ),
            FootprintChild::Other { .. } => None,
        };
        if let Some(child) = replaced {
            done.set(i, child);
        }
        i += 1;
    }
    Some(done)
}

fn contains_pad(items: &Vec<FootprintChild>, number: &str) -> (res: bool)
    ensures
        res == has_pad(items@, number@),
{
    let mut i: usize = 0;
    while i < items.len()
        invariant
            i <= items@.len(),
            forall|j: int|
                0 <= j < i ==> !(#[trigger] items@[j] is Pad && items@[j]->number@ == number@),
        decreases items@.len() - i,
    {
        let found: bool = match &items[i] {
            FootprintChild::Pad { number: own, .. } => text_eq(own.as_str(), number),
            _ => false,
        };
        if found {
            return true;
        }
        i += 1;
    }
    false
}

/// The first planned pad that the items do not have.
pub open spec fn missing_pad_at(
    items: Seq<FootprintChild>,
    pad_nets: TextMap<String>,
    k: int,
) -> bool {
    &&& 0 <= k < pad_nets.keys().len()
    &&& !has_pad(items, pad_nets.keys()[k])
    &&& forall|j: int| 0 <= j < k ==> has_pad(items, #[trigger] pad_nets.keys()[j])
}

/// Every planned pad is among the items.
pub open spec fn all_pads_there(items: Seq<FootprintChild>, pad_nets: TextMap<String>) -> bool {
    forall|j: int|
        0 <= j < pad_nets.keys().len() ==> has_pad(items, #[trigger] pad_nets.keys()[j])
}

fn find_missing(items: &Vec<FootprintChild>, pad_nets: &TextMap<String>) -> (res: Option<String>)
    ensures
        match res {
            Some(number) => exists|k: int| #[trigger]
                missing_pad_at(items@, *pad_nets, k) && number@ == pad_nets.keys()[k],
            None => all_pads_there(items@, *pad_nets),
        },
{
    let count: usize = pad_nets.len();
    let mut k: usize = 0;
    while k < count
        invariant
            k <= count,
            count == pad_nets.keys().len(),
            forall|j: int| 0 <= j < k ==> has_pad(items@, #[trigger] pad_nets.keys()[j]),
        decreases count - k,
    {
        let number = pad_nets.key_at(k);
        if !contains_pad(items, number.as_str()) {
            assert(missing_pad_at(items@, *pad_nets, k as int));
            return Some(number.clone());
        }
        k += 1;
    }
    None
}

/// What writing a plan into a footprint gives: an error for a footprint without
/// a definition, for one with a pad that cannot be read, or for the first
/// planned pad that it does not have, and otherwise the footprint with the
/// plan written into it.
pub open spec fn fields_outcome(
    footprint: FootprintItem,
    res: Result<FootprintItem, FootprintError>,
    reference: Seq<char>,
    value: Seq<char>,
    symbol_path: Seq<char>,
    dnp: bool,
    pad_nets: TextMap<String>,
    net_codes: Map<Seq<char>, i32>,
) -> bool {
    let items = footprint.definition->0.items@;
    if footprint.definition is None {
        res matches Err(FootprintError::NoDefinition)
    } else if has_unreadable(items) {
        res matches Err(FootprintError::UnreadablePad { reference: name }) && name@ == reference
    } else if !all_pads_there(items, pad_nets) {
        res matches Err(FootprintError::MissingPad { reference: name, number }) && name@
            == reference && exists|k: int| #[trigger]
            missing_pad_at(items, pad_nets, k) && number@ == pad_nets.keys()[k]
    } else {
        res matches Ok(done) && fields_applied(
            footprint,
            done,
            reference,
            value,
            symbol_path,
            dnp,
            pad_nets@,
            net_codes,
        )
    }
}

/// Writes what the schematic says of a component into its footprint: the
/// reference and value, the schematic identity, the flag for population and
/// the net of each pad.
pub fn apply_footprint_fields(
    footprint: FootprintItem,
    reference: &str,
    value: &str,
    symbol_path: &str,
    dnp: bool,
    pad_nets: &TextMap<String>,
    net_codes: &TextMap<i32>,
) -> (res: Result<FootprintItem, FootprintError>)
    ensures
        fields_outcome(
            footprint,
            res,
            reference@,
            value@,
            symbol_path@,
            dnp,
            *pad_nets,
            net_codes@,
        ),
{
    let definition = match footprint.definition {
        Some(definition) => definition,
        None => {
            return Err(FootprintError::NoDefinition);
        },
    };
    let missing = find_missing(&definition.items, pad_nets);
    let items = match update_children(definition.items, pad_nets, net_codes) {
        Some(items) => items,
        None => {
            return Err(FootprintError::UnreadablePad { reference: owned(reference) });
        },
    };
    if let Some(number) = missing {
        return Err(FootprintError::MissingPad { reference: owned(reference), number });
    }
    let mut reference_field = footprint.reference_field;
    let mut value_field = footprint.value_field;
    let mut inner_reference = definition.reference_field;
    let mut inner_value = definition.value_field;
    set_field_text(&mut reference_field, "Reference", reference);
    set_field_text(&mut value_field, "Value", value);
    set_field_text(&mut inner_reference, "Reference", reference);
    set_field_text(&mut inner_value, "Value", value);
    Ok(
        FootprintItem {
            id: footprint.id,
            reference_field,
            value_field,
            definition: Some(
                FootprintDefinition {
                    id: definition.id,
                    reference_field: inner_reference,
                    value_field: inner_value,
                    attributes: set_dnp(definition.attributes, dnp),
                    items,
                },
            ),
            symbol_path: Some(split_parts(symbol_path, '/')),
            attributes: set_dnp(footprint.attributes, dnp),
            position: footprint.position,
            rotation: footprint.rotation,
            layer: footprint.layer,
            locked: footprint.locked,
        },
    )
}

/// The path of a sheet as text.
pub open spec fn path_text(parts: Seq<Seq<char>>) -> Seq<char> {
    "/"@ + joined(parts, "/"@)
}

/// The path of a sheet as text.
pub fn sheet_path_string(path: &Vec<String>) -> (res: String)
    ensures
        res@ == path_text(texts(path@)),
{
    concat2("/", join(path, "/").as_str())
}

/// Why a live footprint cannot be read.
#[derive(Debug, Clone, Copy, PartialEq, Eq, Structural)]
pub enum SnapshotError {
    NoKiid,
    NoDefinition,
}

impl SnapshotError {
    /// The message of the error.
    pub fn message(&self) -> (res: String)
        ensures
            res@ == match self {
                SnapshotError::NoKiid => "KiCad returned a footprint without a KIID"@,
                SnapshotError::NoDefinition => "KiCad returned a footprint without a definition"@,
            },
    {
        match self {
            SnapshotError::NoKiid => owned("KiCad returned a footprint without a KIID"),
            SnapshotError::NoDefinition => owned("KiCad returned a footprint without a definition"),
        }
    }
}

/// The nets of the pads among these items; of two pads with one number the
/// later counts, and a pad without a named net has none.
pub open spec fn child_nets(items: Seq<FootprintChild>) -> Map<Seq<char>, Seq<char>>
    decreases items.len(),
{
    if items.len() == 0 {
        Map::empty()
    } else {
        let rest = child_nets(items.drop_last());
        match items.last() {
            FootprintChild::Pad { number, net: Some(net) } if net.name@.len() > 0 => rest.insert(
                number@,
                net.name@,
            ),
            _ => rest,
        }
    }
}

/// The name of a footprint in its library, as text.
pub open spec fn library_text(id: Option<LibraryId>) -> Seq<char> {
    match id {
        Some(id) => id.library_nickname@ + ":"@ + id.entry_name@,
        None => Seq::empty(),
    }
}

/// What is wrong with a live footprint.
pub open spec fn unreadable_item(item: FootprintItem) -> Option<SnapshotError> {
    if item.id is None || item.id->0@.len() == 0 {
        Some(SnapshotError::NoKiid)
    } else if item.definition is None {
        Some(SnapshotError::NoDefinition)
    } else {
        None
    }
}

/// The footprint is what a live item shows.
pub open spec fn snapshot_of(item: FootprintItem, footprint: BoardFootprint) -> bool {
    &&& Some(footprint.kiid@) == opt_text(item.id)
    &&& footprint.reference@ == text_of_field(item.reference_field)
    &&& footprint.value@ == text_of_field(item.value_field)
    &&& footprint.footprint_id@ == library_text(item.definition->0.id)
    &&& match item.symbol_path {
        Some(path) => opt_text(footprint.symbol_path) == Some(path_text(texts(path@))),
        None => footprint.symbol_path is None,
    }
    &&& texts_of(footprint.pad_nets@) == child_nets(item.definition->0.items@)
    &&& footprint.position == (match item.position {
        Some(point) => point,
        None => Point { x: 0, y: 0 },
    })
    &&& footprint.rotation == (match item.rotation {
        Some(angle) => angle,
        None => 0,
    })
    &&& footprint.layer@ == item.layer@
    &&& footprint.locked == item.locked
    &&& footprint.dnp == (item.attributes is Some && item.attributes->0.do_not_populate)
    &&& footprint.not_in_schematic == (item.attributes is Some
        && item.attributes->0.not_in_schematic)
}

fn is_empty_text(text: &String) -> (res: bool)
    ensures
        res == (text@.len() == 0),
{
    let empty = String::new();
    let res = *text == empty;
    assert(text@.len() == 0 ==> text@ =~= empty@);
    res
}

fn read_child_nets(items: &Vec<FootprintChild>) -> (res: TextMap<String>)
    ensures
        texts_of(res@) == child_nets(items@),
{
    let mut nets: TextMap<String> = TextMap::new();
    let mut i: usize = 0;
    assert(items@.take(0) =~= Seq::empty());
    assert(texts_of(nets@) =~= Map::empty());
    while i < items.len()
        invariant
            i <= items@.len(),
            texts_of(nets@) == child_nets(items@.take(i as int)),
        decreases items@.len() - i,
    {
        let ghost before = nets@;
        proof {
            assert(items@.take(i + 1).drop_last() =~= items@.take(i as int));
            assert(items@.take(i + 1).last() == items@[i as int]);
        }
        match &items[i] {
            FootprintChild::Pad { number, net: Some(net) } => {
                if !is_empty_text(&net.name) {
                    nets.insert(number.clone(), net.name.clone());
                    assert(texts_of(nets@) =~= texts_of(before).insert(number@, net.name@));
                }
            },
            _ => {},
        }
        i += 1;
    }
    assert(items@.take(i as int) =~= items@);
    nets
}

/// Reads one live footprint.
pub fn snapshot_footprint(item: &FootprintItem) -> (res: Result<BoardFootprint, SnapshotError>)
    ensures
        match unreadable_item(*item) {
            Some(error) => res == Err::<BoardFootprint, SnapshotError>(error),
            None => res matches Ok(footprint) && snapshot_of(*item, footprint),
        },
{
    let kiid = match &item.id {
        Some(id) => if is_empty_text(id) {
            return Err(SnapshotError::NoKiid);
        } else {
            id.clone()
        },
        None => {
            return Err(SnapshotError::NoKiid);
        },
    };
    let definition = match &item.definition {
        Some(definition) => definition,
        None => {
            return Err(SnapshotError::NoDefinition);
        },
    };
    let footprint_id = match &definition.id {
        Some(id) => concat3(id.library_nickname.as_str(), ":", id.entry_name.as_str()),
        None => String::new(),
    };
    let symbol_path = match &item.symbol_path {
        Some(path) => Some(sheet_path_string(path)),
        None => None,
    };
    Ok(
        BoardFootprint {
            kiid,
            reference: field_text(&item.reference_field),
            value: field_text(&item.value_field),
            footprint_id,
            symbol_path,
            pad_nets: read_child_nets(&definition.items),
            position: match item.position {
                Some(point) => point,
                None => Point { x: 0, y: 0 },
            },
            rotation: match item.rotation {
                Some(angle) => angle,
                None => 0,
            },
            layer: item.layer.clone(),
            locked: item.locked,
            dnp: match item.attributes {
                Some(flags) => flags.do_not_populate,
                None => false,
            },
            not_in_schematic: match item.attributes {
                Some(flags) => flags.not_in_schematic,
                None => false,
            },
        },
    )
}

/// Reads the live footprints of a board; the first one that cannot be read is
/// an error.
pub fn snapshot_footprints(items: &Vec<FootprintItem>) -> (res: Result<
    Vec<BoardFootprint>,
    SnapshotError,
>)
    ensures
        match res {
            Ok(footprints) => footprints@.len() == items@.len() && forall|i: int|
                0 <= i < items@.len() ==> unreadable_item(#[trigger] items@[i]) is None
                    && snapshot_of(items@[i], footprints@[i]),
            Err(error) => exists|i: int|
                0 <= i < items@.len() && unreadable_item(#[trigger] items@[i]) == Some(error)
                    && forall|j: int|
                    0 <= j < i ==> unreadable_item(#[trigger] items@[j]) is None,
        },
{
    let mut footprints: Vec<BoardFootprint> = Vec::new();
    let mut i: usize = 0;
    while i < items.len()
        invariant
            i <= items@.len(),
            footprints@.len() == i,
            forall|j: int|
                0 <= j < i ==> unreadable_item(#[trigger] items@[j]) is None && snapshot_of(
                    items@[j],
                    footprints@[j],
                ),
        decreases items@.len() - i,
    {
        match snapshot_footprint(&items[i]) {
            Ok(footprint) => {
                footprints.push(footprint);
            },
            Err(error) => {
                assert(unreadable_item(items@[i as int]) == Some(error));
                return Err(error);
            },
        }
        i += 1;
    }
    Ok(footprints)
}

/// What a plan writes into a footprint is what the next snapshot reads from
/// it: reference, value and the flag for population, with the identifier, the
/// pose and the layer as they were.
pub proof fn law_snapshot_reads_what_was_applied(
    before: FootprintItem,
    after: FootprintItem,
    footprint: BoardFootprint,
    reference: Seq<char>,
    value: Seq<char>,
    symbol_path: Seq<char>,
    dnp: bool,
    pad_nets: Map<Seq<char>, String>,
    net_codes: Map<Seq<char>, i32>,
)
    requires
        fields_applied(
            before,
            after,
            reference,
            value,
            symbol_path,
            dnp,
            pad_nets,
            net_codes,
        ),
        snapshot_of(after, footprint),
    ensures
        footprint.reference@ == reference,
        footprint.value@ == value,
        footprint.dnp == dnp,
        Some(footprint.kiid@) == opt_text(before.id),
        opt_text(footprint.symbol_path) == Some(path_text(parts_between(symbol_path, '/'))),
        footprint.layer@ == before.layer@,
        footprint.locked == before.locked,
        before.position is Some ==> footprint.position == before.position->0,
        before.rotation is Some ==> footprint.rotation == before.rotation->0,
{
}

/// Writing a plan into a footprint leaves the number of pads and every other
/// item of it as they were.
pub proof fn law_graphics_stay_graphics(
    before: FootprintItem,
    after: FootprintItem,
    reference: Seq<char>,
    value: Seq<char>,
    symbol_path: Seq<char>,
    dnp: bool,
    pad_nets: Map<Seq<char>, String>,
    net_codes: Map<Seq<char>, i32>,
    i: int,
)
    requires
        fields_applied(
            before,
            after,
            reference,
            value,
            symbol_path,
            dnp,
            pad_nets,
            net_codes,
        ),
        0 <= i < before.definition->0.items@.len(),
    ensures
        after.definition->0.items@[i] is Pad == before.definition->0.items@[i] is Pad,
        !(before.definition->0.items@[i] is Pad) ==> after.definition->0.items@[i]
            == before.definition->0.items@[i],
{
    assert(child_updated(
        before.definition->0.items@[i],
        after.definition->0.items@[i],
        pad_nets,
        net_codes,
    ));
}

/// A part of a sheet path: some text without a slash.
pub open spec fn is_path_part(part: Seq<char>) -> bool {
    part.len() > 0 && !part.contains('/')
}

/// A sheet path that is written as text and split again has the same parts, so
/// the identity that a plan writes is the one that the next snapshot reads.
pub proof fn law_sheet_paths_survive_writing(parts: Seq<Seq<char>>)
    requires
        forall|i: int| 0 <= i < parts.len() ==> is_path_part(#[trigger] parts[i]),
    ensures
        parts_between(path_text(parts), '/') == parts,
        path_text(parts_between(path_text(parts), '/')) == path_text(parts),
{
    reveal_strlit("/");
    let body = joined(parts, "/"@);
    let text = path_text(parts);
    assert(text.skip(1) =~= body);
    assert(Seq::<Seq<char>>::empty() + parts_from(Seq::empty(), body, '/') =~= parts_from(
        Seq::empty(),
        body,
        '/',
    ));
    lemma_split_joined(parts, Seq::empty());
    assert(body + Seq::empty() =~= body);
    assert(parts + parts_from(Seq::empty(), Seq::empty(), '/') =~= parts);
}

proof fn lemma_split_joined(parts: Seq<Seq<char>>, tail: Seq<char>)
    requires
        forall|i: int| 0 <= i < parts.len() ==> is_path_part(#[trigger] parts[i]),
        tail.len() == 0 || tail[0] == '/',
    ensures
        parts_from(Seq::empty(), joined(parts, "/"@) + tail, '/') == parts + parts_from(
            Seq::empty(),
            tail,
            '/',
        ),
    decreases parts.len(),
{
    let text = joined(parts, "/"@) + tail;
    let none = Seq::<char>::empty();
    if parts.len() == 0 {
        assert(text =~= tail);
        assert(parts + parts_from(none, tail, '/') =~= parts_from(none, tail, '/'));
    } else {
        let last = parts.last();
        assert(is_path_part(parts[parts.len() - 1]));
        if parts.len() == 1 {
            lemma_split_part(none, last, tail);
            assert(none + last =~= last);
        } else {
            reveal_strlit("/");
            let rest = parts.drop_last();
            let more = "/"@ + last + tail;
            assert forall|i: int| 0 <= i < rest.len() implies is_path_part(
                #[trigger] rest[i],
            ) by {
                assert(rest[i] == parts[i]);
            }
            lemma_split_joined(rest, more);
            assert(text =~= joined(rest, "/"@) + more);
            assert(more.skip(1) =~= last + tail);
            assert(Seq::<Seq<char>>::empty() + parts_from(none, last + tail, '/') =~= parts_from(
                none,
                last + tail,
                '/',
            ));
            lemma_split_part(none, last, tail);
            assert(none + last =~= last);
        }
        if tail.len() == 0 {
            assert(parts_from(last, tail, '/') =~= seq![last]);
            assert(parts_from(none, tail, '/') =~= Seq::empty());
        } else {
            assert(parts_from(none, tail, '/') =~= parts_from(none, tail.skip(1), '/'));
        }
        assert(parts =~= parts.drop_last() + seq![last]);
        assert(parts_from(none, text, '/') =~= parts + parts_from(none, tail, '/'));
    }
}

proof fn lemma_split_part(started: Seq<char>, part: Seq<char>, tail: Seq<char>)
    requires
        !part.contains('/'),
    ensures
        parts_from(started, part + tail, '/') == parts_from(started + part, tail, '/'),
    decreases part.len(),
{
    if part.len() == 0 {
        assert(part + tail =~= tail);
        assert(started + part =~= started);
    } else {
        let rest = part.skip(1);
        assert(part.contains(part[0]));
        assert((part + tail).skip(1) =~= rest + tail);
        assert(!rest.contains('/')) by {
            if rest.contains('/') {
                let i = rest.index_of('/');
                assert(part[i + 1] == '/');
            }
        }
        lemma_split_part(started.push(part[0]), rest, tail);
        assert(started.push(part[0]) + rest =~= started + part);
    }
}

} // verus!
