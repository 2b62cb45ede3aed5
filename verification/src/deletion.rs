//! Deciding what a deletion takes with it, and holding the saved file to it.

use crate::decimal::{millionths_text, number_text, write_millionths, write_number};
use crate::geometry::{coincident, points_coincident, COINCIDENT_TOLERANCE};
use crate::lists::{ints, lemma_positions, positions_where};
use crate::sexp::{Sexp, SexpNode};
use crate::text::{
    concat2, concat3, concat5, contains_text, join, joined, ordered_list_of, owned,
    strictly_ordered, text_before, text_eq, texts,
};
use crate::text_map::{ordered_keys, sorted_unique, TextMap};
use crate::tool_error::{ComponentDeleteTargetError, TargetFault};
use vstd::prelude::*;
use vstd::string::*;

verus! {

/// A block of a schematic file directly below its root: its tree, or why it
/// could not be parsed, and its text.
#[derive(PartialEq, Eq, Debug)]
pub struct TopLevelBlock {
    pub node: Result<SexpNode, String>,
    pub source: String,
}

/// An item of a schematic file.
#[derive(PartialEq, Eq, Debug)]
pub struct IndexedSchematicItem {
    pub kind: String,
    pub source: String,
}

/// The content of an [`IndexedSchematicItem`].
pub struct ItemView {
    pub kind: Seq<char>,
    pub source: Seq<char>,
}

impl View for IndexedSchematicItem {
    type V = ItemView;

    open spec fn view(&self) -> ItemView {
        ItemView { kind: self.kind@, source: self.source@ }
    }
}

/// The contents of a map of items.
pub open spec fn item_views(map: Map<Seq<char>, IndexedSchematicItem>) -> Map<
    Seq<char>,
    ItemView,
> {
    map.map_values(|item: IndexedSchematicItem| item@)
}

/// The word that a block starts with.
pub open spec fn kind_of(node: Sexp) -> Seq<char> {
    match node.text_at(0) {
        Some(text) => text,
        None => "unknown"@,
    }
}

/// A file that is not what it was taken for.
pub open spec fn stale(path: Seq<char>, reason: Seq<char>) -> TargetFault {
    TargetFault::Stale { target: path, reason }
}

/// The items of a file by identifier, given those of the blocks before.
pub open spec fn with_block(
    path: Seq<char>,
    items: Map<Seq<char>, ItemView>,
    block: TopLevelBlock,
) -> Result<Map<Seq<char>, ItemView>, TargetFault> {
    match block.node {
        Err(message) => Err(stale(path, message@)),
        Ok(node) => match node@.value_of("uuid"@) {
            None => Ok(items),
            Some(uuid) => if items.contains_key(uuid) {
                Err(
                    TargetFault::Ambiguous {
                        target: "schematic UUID "@ + uuid,
                        candidates: seq![items[uuid].kind, kind_of(node@)],
                    },
                )
            } else {
                Ok(
                    items.insert(
                        uuid,
                        ItemView { kind: kind_of(node@), source: block.source@ },
                    ),
                )
            },
        },
    }
}

/// The items of the first `n` blocks by identifier, or the first fault.
pub open spec fn with_blocks(path: Seq<char>, blocks: Seq<TopLevelBlock>, n: nat) -> Result<
    Map<Seq<char>, ItemView>,
    TargetFault,
>
    decreases n,
{
    if n == 0 {
        Ok(Map::empty())
    } else {
        match with_blocks(path, blocks, (n - 1) as nat) {
            Err(fault) => Err(fault),
            Ok(items) => with_block(path, items, blocks[n - 1]),
        }
    }
}

/// The items of a file by identifier.
pub open spec fn indexed(path: Seq<char>, blocks: Seq<TopLevelBlock>) -> Result<
    Map<Seq<char>, ItemView>,
    TargetFault,
> {
    if blocks.len() == 0 {
        Err(stale(path, "the kicad_sch root is missing or malformed"@))
    } else {
        with_blocks(path, blocks, blocks.len())
    }
}

proof fn lemma_blocks_fault_stays(path: Seq<char>, blocks: Seq<TopLevelBlock>, n: nat)
    requires
        n <= blocks.len(),
        with_blocks(path, blocks, n) is Err,
    ensures
        with_blocks(path, blocks, blocks.len()) == with_blocks(path, blocks, n),
    decreases blocks.len() - n,
{
    if n < blocks.len() {
        lemma_blocks_fault_stays(path, blocks, n + 1);
    }
}

pub(crate) fn read_kind(node: &SexpNode) -> (res: String)
    ensures
        res@ == kind_of(node@),
{
    match node.str_at(0) {
        Some(text) => owned(text),
        None => owned("unknown"),
    }
}

/// Indexes the items of a file by identifier. A block without one is left out;
/// an identifier that occurs twice, or a block that cannot be parsed, is an
/// error.
pub fn indexed_uuid_items(path: &str, blocks: &Vec<TopLevelBlock>) -> (res: Result<
    TextMap<IndexedSchematicItem>,
    ComponentDeleteTargetError,
>)
    ensures
        match indexed(path@, blocks@) {
            Ok(items) => res matches Ok(map) && item_views(map@) == items,
            Err(fault) => res matches Err(error) && error@ == fault,
        },
{
    if blocks.len() == 0 {
        return Err(
            ComponentDeleteTargetError::stale(
                path,
                owned("the kicad_sch root is missing or malformed"),
            ),
        );
    }
    let mut items: TextMap<IndexedSchematicItem> = TextMap::new();
    let mut i: usize = 0;
    assert(item_views(items@) =~= Map::empty());
    while i < blocks.len()
        invariant
            i <= blocks@.len(),
            blocks@.len() > 0,
            with_blocks(path@, blocks@, i as nat) == Ok::<_, TargetFault>(item_views(items@)),
        decreases blocks@.len() - i,
    {
        let block = &blocks[i];
        let ghost before = items@;
        match &block.node {
            Err(message) => {
                proof {
                    lemma_blocks_fault_stays(path@, blocks@, (i + 1) as nat);
                }
                return Err(ComponentDeleteTargetError::stale(path, message.clone()));
            },
            Ok(node) => {
                if let Some(uuid) = node.find_str("uuid") {
                    let kind = read_kind(node);
                    assert(item_views(before).contains_key(uuid@) <==> before.contains_key(uuid@));
                    if let Some(previous) = items.get(uuid) {
                        let mut candidates: Vec<String> = Vec::new();
                        candidates.push(previous.kind.clone());
                        candidates.push(kind);
                        proof {
                            assert(texts(candidates@) =~= seq![
                                item_views(before)[uuid@].kind,
                                kind_of(node@),
                            ]);
                            lemma_blocks_fault_stays(path@, blocks@, (i + 1) as nat);
                        }
                        return Err(
                            ComponentDeleteTargetError::Ambiguous {
                                target: concat2("schematic UUID ", uuid),
                                candidates,
                            },
                        );
                    }
                    let item = IndexedSchematicItem { kind, source: block.source.clone() };
                    let ghost view = item@;
                    items.insert(owned(uuid), item);
                    assert(item_views(items@) =~= item_views(before).insert(uuid@, view));
                }
            },
        }
        i += 1;
    }
    Ok(items)
}

/// A placed unit of a symbol.
#[derive(PartialEq, Eq, Debug)]
pub struct PlacedInstance {
    pub reference: String,
    pub unit: u32,
    pub uuid: Option<String>,
    pub lib_id: String,
    pub x: i64,
    pub y: i64,
    pub rotation: i64,
}

/// What a deletion was found to be about.
#[derive(PartialEq, Eq, Debug)]
pub struct DeletionTargets {
    pub label: String,
    pub unit_uuids: Vec<String>,
    pub units_by_reference: TextMap<Vec<String>>,
    pub item_uuids: Vec<String>,
}

/// The positions of the instances with one of these references.
pub open spec fn selected(instances: Seq<PlacedInstance>, references: Seq<Seq<char>>) -> Seq<int> {
    positions_where(|i: int| references.contains(instances[i].reference@), instances.len())
}

/// The instances with one of these references are at those positions.
pub proof fn lemma_selected_positions(instances: Seq<PlacedInstance>, references: Seq<Seq<char>>)
    ensures
        ({
            let at = selected(instances, references);
            &&& forall|k: int|
                0 <= k < at.len() ==> 0 <= #[trigger] at[k] < instances.len()
                    && references.contains(instances[at[k]].reference@)
            &&& forall|i: int|
                0 <= i < instances.len() && references.contains((#[trigger] instances[i]).reference@)
                    ==> at.contains(i)
            &&& forall|p: int, q: int|
                0 <= p < q < at.len() ==> #[trigger] at[p] < #[trigger] at[q]
        }),
{
    lemma_positions(|i: int| references.contains(instances[i].reference@), instances.len());
}

/// The item is a symbol.
pub open spec fn is_symbol(items: Map<Seq<char>, ItemView>, uuid: Seq<char>) -> bool {
    items.contains_key(uuid) && items[uuid].kind == "symbol"@
}

/// What is wrong with a selected instance.
pub open spec fn instance_fault(
    path: Seq<char>,
    items: Map<Seq<char>, ItemView>,
    instance: PlacedInstance,
) -> Option<TargetFault> {
    match instance.uuid {
        None => Some(
            stale(
                path,
                "component "@ + instance.reference@ + " unit "@ + number_text(instance.unit as nat)
                    + " has no UUID"@,
            ),
        ),
        Some(uuid) => if is_symbol(items, uuid@) {
            None
        } else {
            Some(stale(path, "UUID "@ + uuid@ + " no longer identifies a top-level symbol"@))
        },
    }
}

/// The first of these texts that is not among the others.
pub open spec fn first_absent(wanted: Seq<Seq<char>>, present: Set<Seq<char>>) -> Option<Seq<char>>
    decreases wanted.len(),
{
    if wanted.len() == 0 {
        None
    } else {
        match first_absent(wanted.drop_last(), present) {
            Some(text) => Some(text),
            None => if present.contains(wanted.last()) {
                None
            } else {
                Some(wanted.last())
            },
        }
    }
}

/// The references of the instances.
pub open spec fn references_of(instances: Seq<PlacedInstance>) -> Set<Seq<char>> {
    Set::new(
        |text: Seq<char>|
            exists|i: int| 0 <= i < instances.len() && (#[trigger] instances[i]).reference@ == text,
    )
}

/// The fault of the first of these positions whose instance has one.
pub open spec fn first_instance_fault(
    path: Seq<char>,
    items: Map<Seq<char>, ItemView>,
    instances: Seq<PlacedInstance>,
    at: Seq<int>,
) -> Option<TargetFault>
    decreases at.len(),
{
    if at.len() == 0 {
        None
    } else {
        match first_instance_fault(path, items, instances, at.drop_last()) {
            Some(fault) => Some(fault),
            None => instance_fault(path, items, instances[at.last()]),
        }
    }
}

/// The identifiers of those instances of these positions that place this unit
/// of this reference.
pub open spec fn uuids_of_unit(
    instances: Seq<PlacedInstance>,
    at: Seq<int>,
    reference: Seq<char>,
    unit: u32,
) -> Seq<Seq<char>>
    decreases at.len(),
{
    if at.len() == 0 {
        Seq::empty()
    } else {
        let rest = uuids_of_unit(instances, at.drop_last(), reference, unit);
        let own = instances[at.last()];
        if own.reference@ == reference && own.unit == unit {
            rest.push(own.uuid->0@)
        } else {
            rest
        }
    }
}

/// This unit is placed more than once.
pub open spec fn placed_twice(
    instances: Seq<PlacedInstance>,
    at: Seq<int>,
    reference: Seq<char>,
    unit: u32,
) -> bool {
    uuids_of_unit(instances, at, reference, unit).len() > 1
}

/// Of the units that are placed more than once this one is first, by reference
/// and then by number.
pub open spec fn first_placed_twice(
    instances: Seq<PlacedInstance>,
    at: Seq<int>,
    reference: Seq<char>,
    unit: u32,
) -> bool {
    &&& placed_twice(instances, at, reference, unit)
    &&& forall|r: Seq<char>, u: u32| #[trigger]
        placed_twice(instances, at, r, u) ==> text_before(reference, r) || (r == reference && unit
            <= u)
}

/// The identifiers of the instances of these positions.
pub open spec fn uuid_list(instances: Seq<PlacedInstance>, at: Seq<int>) -> Seq<Seq<char>> {
    Seq::new(at.len(), |i: int| instances[at[i]].uuid->0@)
}

/// The identifiers of those instances of these positions with this reference.
pub open spec fn uuids_of_reference(
    instances: Seq<PlacedInstance>,
    at: Seq<int>,
    reference: Seq<char>,
) -> Set<Seq<char>> {
    Set::new(
        |uuid: Seq<char>|
            exists|i: int|
                0 <= i < at.len() && (#[trigger] instances[at[i]]).reference@ == reference
                    && instances[at[i]].uuid->0@ == uuid,
    )
}

/// What the targets of a deletion are called.
pub open spec fn deletion_label(references: Seq<Seq<char>>) -> Seq<char> {
    if references.len() == 0 {
        "selected items"@
    } else {
        joined(references, ", "@)
    }
}

/// The outcome of selecting what to delete: the first fault there is, in this
/// order, or the targets.
pub open spec fn selection_outcome(
    path: Seq<char>,
    references: Seq<Seq<char>>,
    item_uuids: Seq<Seq<char>>,
    items: Map<Seq<char>, ItemView>,
    instances: Seq<PlacedInstance>,
    res: Result<DeletionTargets, ComponentDeleteTargetError>,
) -> bool {
    let at = selected(instances, references);
    let all = ordered_list_of(uuid_list(instances, at).to_set());
    if references.len() == 0 && item_uuids.len() == 0 {
        res matches Err(error) && error@ == stale(path, "no schematic items were selected"@)
    } else if first_absent(item_uuids, items.dom()) is Some {
        res matches Err(error) && error@ == stale(
            path,
            "schematic item UUID "@ + first_absent(item_uuids, items.dom())->0
                + " is not present"@,
        )
    } else if first_absent(references, references_of(instances)) is Some {
        res matches Err(error) && error@ == stale(
            path,
            "component "@ + first_absent(references, references_of(instances))->0
                + " is not present"@,
        )
    } else if first_instance_fault(path, items, instances, at) is Some {
        res matches Err(error) && error@ == first_instance_fault(path, items, instances, at)->0
    } else if exists|r: Seq<char>, u: u32| #[trigger] placed_twice(instances, at, r, u) {
        res matches Err(error) && exists|r: Seq<char>, u: u32| #[trigger]
            first_placed_twice(instances, at, r, u) && error@ == (TargetFault::Ambiguous {
                target: "component "@ + r + " unit "@ + number_text(u as nat),
                candidates: uuids_of_unit(instances, at, r, u),
            })
    } else if all.len() != at.len() {
        res matches Err(error) && error@ == (TargetFault::Ambiguous {
            target: "components "@ + deletion_label(references),
            candidates: all,
        })
    } else {
        res matches Ok(targets) && {
            &&& targets.label@ == deletion_label(references)
            &&& texts(targets.unit_uuids@) == all
            &&& texts(targets.item_uuids@) == item_uuids
            &&& targets.units_by_reference.keys() == references
            &&& forall|i: int|
                0 <= i < references.len() ==> texts(
                    (#[trigger] targets.units_by_reference.values()[i])@,
                ) == ordered_list_of(uuids_of_reference(instances, at, references[i]))
        }
    }
}

fn find_absent<V>(wanted: &Vec<String>, present: &TextMap<V>) -> (res: Option<usize>)
    ensures
        match res {
            Some(i) => i < wanted@.len() && first_absent(texts(wanted@), present@.dom()) == Some(
                wanted@[i as int]@,
            ),
            None => first_absent(texts(wanted@), present@.dom()) is None,
        },
{
    let ghost all = texts(wanted@);
    let mut i: usize = 0;
    assert(all.take(0) =~= Seq::empty());
    while i < wanted.len()
        invariant
            i <= wanted@.len(),
            all == texts(wanted@),
            first_absent(all.take(i as int), present@.dom()) is None,
        decreases wanted@.len() - i,
    {
        proof {
            assert(all.take(i + 1).drop_last() =~= all.take(i as int));
            assert(all.take(i + 1).last() == wanted@[i as int]@);
        }
        if !present.contains_key(wanted[i].as_str()) {
            proof {
                lemma_absent_stays(all, present@.dom(), i + 1);
            }
            return Some(i);
        }
        i += 1;
    }
    assert(all.take(i as int) =~= all);
    None
}

proof fn lemma_absent_stays(wanted: Seq<Seq<char>>, present: Set<Seq<char>>, n: int)
    requires
        0 <= n <= wanted.len(),
        first_absent(wanted.take(n), present) is Some,
    ensures
        first_absent(wanted, present) == first_absent(wanted.take(n), present),
    decreases wanted.len() - n,
{
    if n == wanted.len() {
        assert(wanted.take(n) =~= wanted);
    } else {
        assert(wanted.take(n + 1).drop_last() =~= wanted.take(n));
        lemma_absent_stays(wanted, present, n + 1);
    }
}

fn collect_references(instances: &Vec<PlacedInstance>) -> (res: TextMap<bool>)
    ensures
        res@.dom() == references_of(instances@),
{
    let mut res: TextMap<bool> = TextMap::new();
    let mut i: usize = 0;
    while i < instances.len()
        invariant
            i <= instances@.len(),
            forall|text: Seq<char>| #[trigger]
                res@.contains_key(text) <==> exists|j: int|
                    0 <= j < i && (#[trigger] instances@[j]).reference@ == text,
        decreases instances@.len() - i,
    {
        let ghost before = res@;
        res.insert(instances[i].reference.clone(), true);
        proof {
            assert forall|text: Seq<char>| #[trigger]
                res@.contains_key(text) <==> exists|j: int|
                    0 <= j < i + 1 && (#[trigger] instances@[j]).reference@ == text by {
                assert(before.contains_key(text) <==> exists|j: int|
                    0 <= j < i && (#[trigger] instances@[j]).reference@ == text);
                if text == instances@[i as int].reference@ {
                    assert(instances@[i as int].reference@ == text);
                }
            }
        }
        i += 1;
    }
    assert(res@.dom() =~= references_of(instances@));
    res
}

fn find_selected(instances: &Vec<PlacedInstance>, references: &Vec<String>) -> (res: Vec<usize>)
    ensures
        ints(res@) == selected(instances@, texts(references@)),
        forall|i: int| 0 <= i < res@.len() ==> (#[trigger] res@[i]) < instances@.len(),
{
    let mut res: Vec<usize> = Vec::new();
    let ghost names = texts(references@);
    let ghost holds = |i: int| names.contains(instances@[i].reference@);
    let mut i: usize = 0;
    assert(ints(res@) =~= positions_where(holds, 0));
    while i < instances.len()
        invariant
            i <= instances@.len(),
            names == texts(references@),
            holds == (|i: int| names.contains(instances@[i].reference@)),
            ints(res@) == positions_where(holds, i as nat),
            forall|j: int| 0 <= j < res@.len() ==> (#[trigger] res@[j]) < instances@.len(),
        decreases instances@.len() - i,
    {
        let ghost before = ints(res@);
        assert(holds(i as int) == names.contains(instances@[i as int].reference@));
        if contains_text(references, instances[i].reference.as_str()) {
            res.push(i);
            assert(ints(res@) =~= before.push(i as int));
        }
        i += 1;
    }
    res
}

fn check_instance(
    path: &str,
    items: &TextMap<IndexedSchematicItem>,
    instance: &PlacedInstance,
) -> (res: Option<ComponentDeleteTargetError>)
    ensures
        match res {
            Some(error) => instance_fault(path@, item_views(items@), *instance) == Some(error@),
            None => instance_fault(path@, item_views(items@), *instance) is None,
        },
{
    match &instance.uuid {
        None => {
            let reason = concat5(
                "component ",
                instance.reference.as_str(),
                " unit ",
                write_number(instance.unit as usize).as_str(),
                " has no UUID",
            );
            Some(ComponentDeleteTargetError::stale(path, reason))
        },
        Some(uuid) => {
            let found: bool = match items.get(uuid.as_str()) {
                Some(item) => text_eq(item.kind.as_str(), "symbol"),
                None => false,
            };
            assert(found == is_symbol(item_views(items@), uuid@));
            if found {
                None
            } else {
                let reason = concat3(
                    "UUID ",
                    uuid.as_str(),
                    " no longer identifies a top-level symbol",
                );
                Some(ComponentDeleteTargetError::stale(path, reason))
            }
        },
    }
}

fn check_instances(
    path: &str,
    items: &TextMap<IndexedSchematicItem>,
    instances: &Vec<PlacedInstance>,
    at: &Vec<usize>,
) -> (res: Option<ComponentDeleteTargetError>)
    requires
        forall|i: int| 0 <= i < at@.len() ==> (#[trigger] at@[i]) < instances@.len(),
    ensures
        match res {
            Some(error) => first_instance_fault(
                path@,
                item_views(items@),
                instances@,
                ints(at@),
            ) == Some(error@),
            None => first_instance_fault(
                path@,
                item_views(items@),
                instances@,
                ints(at@),
            ) is None && forall|i: int|
                0 <= i < at@.len() ==> instances@[#[trigger] at@[i] as int].uuid is Some,
        },
{
    let ghost all = ints(at@);
    let ghost views = item_views(items@);
    let mut i: usize = 0;
    assert(all.take(0) =~= Seq::empty());
    while i < at.len()
        invariant
            i <= at@.len(),
            all == ints(at@),
            views == item_views(items@),
            forall|i: int| 0 <= i < at@.len() ==> (#[trigger] at@[i]) < instances@.len(),
            first_instance_fault(path@, views, instances@, all.take(i as int)) is None,
            forall|j: int|
                0 <= j < i ==> instances@[#[trigger] at@[j] as int].uuid is Some,
        decreases at@.len() - i,
    {
        proof {
            assert(all.take(i + 1).drop_last() =~= all.take(i as int));
            assert(all.take(i + 1).last() == at@[i as int]);
        }
        if let Some(error) = check_instance(path, items, &instances[at[i]]) {
            proof {
                lemma_instance_fault_stays(path@, views, instances@, all, i + 1);
            }
            return Some(error);
        }
        i += 1;
    }
    assert(all.take(i as int) =~= all);
    None
}

proof fn lemma_instance_fault_stays(
    path: Seq<char>,
    items: Map<Seq<char>, ItemView>,
    instances: Seq<PlacedInstance>,
    at: Seq<int>,
    n: int,
)
    requires
        0 <= n <= at.len(),
        first_instance_fault(path, items, instances, at.take(n)) is Some,
    ensures
        first_instance_fault(path, items, instances, at) == first_instance_fault(
            path,
            items,
            instances,
            at.take(n),
        ),
    decreases at.len() - n,
{
    if n == at.len() {
        assert(at.take(n) =~= at);
    } else {
        assert(at.take(n + 1).drop_last() =~= at.take(n));
        lemma_instance_fault_stays(path, items, instances, at, n + 1);
    }
}

spec fn all_have_uuid(instances: Seq<PlacedInstance>, at: Seq<usize>) -> bool {
    forall|i: int|
        0 <= i < at.len() ==> (#[trigger] at[i]) < instances.len()
            && instances[at[i] as int].uuid is Some
}

fn uuid_of(instance: &PlacedInstance) -> (res: String)
    requires
        instance.uuid is Some,
    ensures
        res@ == instance.uuid->0@,
{
    match &instance.uuid {
        Some(uuid) => uuid.clone(),
        None => String::new(),
    }
}

fn collect_unit(
    instances: &Vec<PlacedInstance>,
    at: &Vec<usize>,
    reference: &str,
    unit: u32,
) -> (res: Vec<String>)
    requires
        all_have_uuid(instances@, at@),
    ensures
        texts(res@) == uuids_of_unit(instances@, ints(at@), reference@, unit),
{
    let ghost all = ints(at@);
    let mut res: Vec<String> = Vec::new();
    let mut i: usize = 0;
    assert(all.take(0) =~= Seq::empty());
    assert(texts(res@) =~= Seq::empty());
    while i < at.len()
        invariant
            i <= at@.len(),
            all == ints(at@),
            all_have_uuid(instances@, at@),
            texts(res@) == uuids_of_unit(instances@, all.take(i as int), reference@, unit),
        decreases at@.len() - i,
    {
        let ghost before = texts(res@);
        proof {
            assert(all.take(i + 1).drop_last() =~= all.take(i as int));
            assert(all.take(i + 1).last() == at@[i as int]);
        }
        let instance = &instances[at[i]];
        if instance.unit == unit && text_eq(instance.reference.as_str(), reference) {
            res.push(uuid_of(instance));
            assert(texts(res@) =~= before.push(instance.uuid->0@));
        }
        i += 1;
    }
    assert(all.take(i as int) =~= all);
    res
}

/// A unit that is placed at all is placed at one of the positions.
proof fn lemma_unit_is_placed(
    instances: Seq<PlacedInstance>,
    at: Seq<int>,
    reference: Seq<char>,
    unit: u32,
) -> (i: int)
    requires
        uuids_of_unit(instances, at, reference, unit).len() > 0,
    ensures
        0 <= i < at.len(),
        instances[at[i]].reference@ == reference,
        instances[at[i]].unit == unit,
    decreases at.len(),
{
    let own = instances[at.last()];
    if own.reference@ == reference && own.unit == unit {
        at.len() - 1
    } else {
        lemma_unit_is_placed(instances, at.drop_last(), reference, unit)
    }
}

/// The least unit of a reference that is placed more than once.
fn find_twice_in(
    instances: &Vec<PlacedInstance>,
    at: &Vec<usize>,
    reference: &str,
) -> (res: Option<u32>)
    requires
        all_have_uuid(instances@, at@),
    ensures
        match res {
            Some(unit) => placed_twice(instances@, ints(at@), reference@, unit) && forall|u: u32|
                #[trigger] placed_twice(instances@, ints(at@), reference@, u) ==> unit <= u,
            None => forall|u: u32| !#[trigger] placed_twice(
                instances@,
                ints(at@),
                reference@,
                u,
            ),
        },
{
    let ghost all = ints(at@);
    let mut least: Option<u32> = None;
    let mut i: usize = 0;
    while i < at.len()
        invariant
            i <= at@.len(),
            all == ints(at@),
            all_have_uuid(instances@, at@),
            least matches Some(unit) ==> placed_twice(instances@, all, reference@, unit),
            forall|j: int|
                0 <= j < i && instances@[(#[trigger] at@[j]) as int].reference@ == reference@
                    && placed_twice(
                    instances@,
                    all,
                    reference@,
                    instances@[at@[j] as int].unit,
                ) ==> (least matches Some(unit) && unit <= instances@[at@[j] as int].unit),
        decreases at@.len() - i,
    {
        let instance = &instances[at[i]];
        if text_eq(instance.reference.as_str(), reference) {
            let uuids = collect_unit(instances, at, reference, instance.unit);
            assert(texts(uuids@).len() == uuids@.len());
            if uuids.len() > 1 {
                let better: bool = match least {
                    Some(unit) => instance.unit < unit,
                    None => true,
                };
                if better {
                    least = Some(instance.unit);
                }
            }
        }
        i += 1;
    }
    proof {
        assert forall|u: u32| #[trigger]
            placed_twice(instances@, all, reference@, u) implies (least matches Some(unit) && unit
            <= u) by {
            let j = lemma_unit_is_placed(instances@, all, reference@, u);
            assert(at@[j] == all[j]);
        }
    }
    least
}

/// The first unit, by reference and then by number, that is placed more than
/// once: the position of its reference, and its number.
fn find_twice(
    instances: &Vec<PlacedInstance>,
    at: &Vec<usize>,
    references: &Vec<String>,
) -> (res: Option<(usize, u32)>)
    requires
        all_have_uuid(instances@, at@),
        strictly_ordered(texts(references@)),
        ints(at@) == selected(instances@, texts(references@)),
    ensures
        match res {
            Some(found) => found.0 < references@.len() && first_placed_twice(
                instances@,
                ints(at@),
                references@[found.0 as int]@,
                found.1,
            ),
            None => forall|r: Seq<char>, u: u32| !#[trigger] placed_twice(
                instances@,
                ints(at@),
                r,
                u,
            ),
        },
{
    let ghost all = ints(at@);
    let ghost names = texts(references@);
    let mut i: usize = 0;
    while i < references.len()
        invariant
            i <= references@.len(),
            all == ints(at@),
            names == texts(references@),
            all_have_uuid(instances@, at@),
            strictly_ordered(names),
            all == selected(instances@, names),
            forall|j: int, u: u32|
                0 <= j < i ==> !#[trigger] placed_twice(instances@, all, names[j], u),
        decreases references@.len() - i,
    {
        let reference = references[i].as_str();
        assert(names[i as int] == reference@);
        if let Some(unit) = find_twice_in(instances, at, reference) {
            proof {
                assert forall|r: Seq<char>, u: u32| #[trigger]
                    placed_twice(instances@, all, r, u) implies text_before(reference@, r) || (r
                    == reference@ && unit <= u) by {
                    let k = lemma_reference_is_named(instances@, all, names, r, u);
                    if k < i {
                        assert(!placed_twice(instances@, all, names[k], u));
                    } else if k > i {
                        assert(text_before(names[i as int], names[k]));
                    }
                }
            }
            return Some((i, unit));
        }
        i += 1;
    }
    proof {
        assert forall|r: Seq<char>, u: u32| !#[trigger] placed_twice(instances@, all, r, u) by {
            if placed_twice(instances@, all, r, u) {
                let k = lemma_reference_is_named(instances@, all, names, r, u);
                assert(!placed_twice(instances@, all, names[k], u));
            }
        }
    }
    None
}

proof fn lemma_reference_is_named(
    instances: Seq<PlacedInstance>,
    at: Seq<int>,
    names: Seq<Seq<char>>,
    r: Seq<char>,
    u: u32,
) -> (k: int)
    requires
        at == selected(instances, names),
        placed_twice(instances, at, r, u),
    ensures
        0 <= k < names.len(),
        names[k] == r,
{
    let i = lemma_unit_is_placed(instances, at, r, u);
    lemma_positions(|i: int| names.contains(instances[i].reference@), instances.len());
    assert(names.contains(instances[at[i]].reference@));
    names.index_of(r)
}

fn collect_uuids(instances: &Vec<PlacedInstance>, at: &Vec<usize>) -> (res: Vec<String>)
    requires
        all_have_uuid(instances@, at@),
    ensures
        texts(res@) == uuid_list(instances@, ints(at@)),
{
    let ghost all = uuid_list(instances@, ints(at@));
    let mut res: Vec<String> = Vec::new();
    let mut i: usize = 0;
    assert(texts(res@) =~= all.take(0));
    while i < at.len()
        invariant
            i <= at@.len(),
            all == uuid_list(instances@, ints(at@)),
            all_have_uuid(instances@, at@),
            texts(res@) == all.take(i as int),
        decreases at@.len() - i,
    {
        let ghost before = texts(res@);
        res.push(uuid_of(&instances[at[i]]));
        assert(texts(res@) =~= before.push(all[i as int]));
        assert(all.take(i + 1) =~= all.take(i as int).push(all[i as int]));
        i += 1;
    }
    assert(all.take(i as int) =~= all);
    res
}

fn collect_of_reference(
    instances: &Vec<PlacedInstance>,
    at: &Vec<usize>,
    reference: &str,
) -> (res: Vec<String>)
    requires
        all_have_uuid(instances@, at@),
    ensures
        texts(res@) == ordered_list_of(uuids_of_reference(instances@, ints(at@), reference@)),
{
    let ghost all = ints(at@);
    let mut list: Vec<String> = Vec::new();
    let mut i: usize = 0;
    while i < at.len()
        invariant
            i <= at@.len(),
            all == ints(at@),
            all_have_uuid(instances@, at@),
            forall|uuid: Seq<char>| #[trigger]
                texts(list@).contains(uuid) <==> exists|j: int|
                    0 <= j < i && (#[trigger] instances@[all[j]]).reference@ == reference@
                        && instances@[all[j]].uuid->0@ == uuid,
        decreases at@.len() - i,
    {
        let instance = &instances[at[i]];
        let ghost before = texts(list@);
        assert(instances@[all[i as int]] == *instance);
        if text_eq(instance.reference.as_str(), reference) {
            list.push(uuid_of(instance));
            assert(texts(list@) =~= before.push(instance.uuid->0@));
        }
        proof {
            let now = texts(list@);
            assert forall|uuid: Seq<char>| #[trigger] now.contains(uuid) <==> exists|j: int|
                0 <= j < i + 1 && (#[trigger] instances@[all[j]]).reference@ == reference@
                    && instances@[all[j]].uuid->0@ == uuid by {
                assert(before.contains(uuid) <==> exists|j: int|
                    0 <= j < i && (#[trigger] instances@[all[j]]).reference@ == reference@
                        && instances@[all[j]].uuid->0@ == uuid);
                if before.contains(uuid) {
                    assert(now[before.index_of(uuid)] == uuid);
                }
                if instance.reference@ == reference@ {
                    assert(now[before.len() as int] == instance.uuid->0@);
                }
                if now.contains(uuid) && !before.contains(uuid) {
                    let k = now.index_of(uuid);
                    assert(k == before.len());
                }
            }
        }
        i += 1;
    }
    let res = sorted_unique(&list);
    assert(texts(list@).to_set() =~= uuids_of_reference(instances@, all, reference@));
    res
}

fn group_units(
    instances: &Vec<PlacedInstance>,
    at: &Vec<usize>,
    references: &Vec<String>,
) -> (res: TextMap<Vec<String>>)
    requires
        all_have_uuid(instances@, at@),
        strictly_ordered(texts(references@)),
    ensures
        res.keys() == texts(references@),
        forall|i: int|
            0 <= i < references@.len() ==> texts((#[trigger] res.values()[i])@) == ordered_list_of(
                uuids_of_reference(instances@, ints(at@), texts(references@)[i]),
            ),
{
    let ghost all = ints(at@);
    let ghost names = texts(references@);
    let mut res: TextMap<Vec<String>> = TextMap::new();
    let mut i: usize = 0;
    while i < references.len()
        invariant
            i <= references@.len(),
            all == ints(at@),
            names == texts(references@),
            strictly_ordered(names),
            all_have_uuid(instances@, at@),
            res.ordered(),
            forall|x: Seq<char>| #[trigger]
                res@.contains_key(x) <==> names.take(i as int).contains(x),
            forall|j: int|
                0 <= j < i ==> texts(res@[#[trigger] names[j]]@) == ordered_list_of(
                    uuids_of_reference(instances@, all, names[j]),
                ),
        decreases references@.len() - i,
    {
        let uuids = collect_of_reference(instances, at, references[i].as_str());
        let ghost before = res@;
        res.insert(references[i].clone(), uuids);
        proof {
            let (a, b) = (names.take(i as int), names.take(i + 1));
            assert(b =~= a.push(names[i as int]));
            assert forall|x: Seq<char>| #[trigger] res@.contains_key(x) <==> b.contains(x) by {
                assert(before.contains_key(x) <==> a.contains(x));
                if a.contains(x) {
                    assert(b[a.index_of(x)] == x);
                }
                if x == names[i as int] {
                    assert(b[i as int] == x);
                }
            }
            assert forall|j: int| 0 <= j < i + 1 implies texts(res@[#[trigger] names[j]]@)
                == ordered_list_of(uuids_of_reference(instances@, all, names[j])) by {
                if j < i {
                    assert(text_before(names[j], names[i as int]));
                    crate::text::lemma_text_before_irreflexive(names[j]);
                }
            }
        }
        i += 1;
    }
    proof {
        assert(names.take(i as int) =~= names);
        assert forall|x: Seq<char>| res.keys().contains(x) <==> names.contains(x) by {
            assert(res@.contains_key(x) <==> res.keys().contains(x));
        }
        crate::text::lemma_ordered_unique(res.keys(), names);
        assert forall|k: int| 0 <= k < references@.len() implies texts(
            (#[trigger] res.values()[k])@,
        ) == ordered_list_of(uuids_of_reference(instances@, all, names[k])) by {
            crate::text_map::lemma_at(res, k);
            assert(res@[names[k]] == res.values()[k]);
        }
    }
    res
}

/// Why a request that selects nothing is refused, if it is one.
pub fn refuse_empty_selection(
    path: &str,
    references: &Vec<String>,
    item_uuids: &Vec<String>,
) -> (res: Option<ComponentDeleteTargetError>)
    ensures
        match res {
            Some(error) => references@.len() == 0 && item_uuids@.len() == 0 && error@ == stale(
                path@,
                "no schematic items were selected"@,
            ),
            None => references@.len() > 0 || item_uuids@.len() > 0,
        },
{
    if references.len() == 0 && item_uuids.len() == 0 {
        Some(ComponentDeleteTargetError::stale(path, owned("no schematic items were selected")))
    } else {
        None
    }
}

/// Finds what a request to delete components and items is about. `references`
/// and `item_uuids` may be in any order and may repeat themselves.
pub fn select_deletions(
    path: &str,
    references: &Vec<String>,
    item_uuids: &Vec<String>,
    items: &TextMap<IndexedSchematicItem>,
    instances: &Vec<PlacedInstance>,
) -> (res: Result<DeletionTargets, ComponentDeleteTargetError>)
    ensures
        selection_outcome(
            path@,
            ordered_list_of(texts(references@).to_set()),
            ordered_list_of(texts(item_uuids@).to_set()),
            item_views(items@),
            instances@,
            res,
        ),
{
    let wanted = sorted_unique(references);
    let item_list = sorted_unique(item_uuids);
    let ghost names = texts(wanted@);
    let ghost views = item_views(items@);
    assert(texts(wanted@).len() == wanted@.len());
    assert(texts(item_list@).len() == item_list@.len());
    assert(views.dom() =~= items@.dom());
    if wanted.len() == 0 && item_list.len() == 0 {
        return Err(
            ComponentDeleteTargetError::stale(path, owned("no schematic items were selected")),
        );
    }
    let label = if wanted.len() == 0 {
        owned("selected items")
    } else {
        join(&wanted, ", ")
    };
    if let Some(i) = find_absent(&item_list, items) {
        let reason = concat3("schematic item UUID ", item_list[i].as_str(), " is not present");
        return Err(ComponentDeleteTargetError::stale(path, reason));
    }
    let found = collect_references(instances);
    if let Some(i) = find_absent(&wanted, &found) {
        let reason = concat3("component ", wanted[i].as_str(), " is not present");
        return Err(ComponentDeleteTargetError::stale(path, reason));
    }
    let at = find_selected(instances, &wanted);
    let ghost chosen = ints(at@);
    if let Some(error) = check_instances(path, items, instances, &at) {
        return Err(error);
    }
    if let Some((i, unit)) = find_twice(instances, &at, &wanted) {
        let candidates = collect_unit(instances, &at, wanted[i].as_str(), unit);
        let target = {
            let mut target = concat3("component ", wanted[i].as_str(), " unit ");
            target.append(write_number(unit as usize).as_str());
            target
        };
        proof {
            let r = wanted@[i as int]@;
            assert(first_placed_twice(instances@, chosen, r, unit));
            assert(placed_twice(instances@, chosen, r, unit));
        }
        return Err(ComponentDeleteTargetError::Ambiguous { target, candidates });
    }
    let uuids = collect_uuids(instances, &at);
    let unit_uuids = sorted_unique(&uuids);
    assert(texts(unit_uuids@).len() == unit_uuids@.len());
    assert(chosen.len() == at@.len());
    if unit_uuids.len() != at.len() {
        return Err(
            ComponentDeleteTargetError::Ambiguous {
                target: concat2("components ", label.as_str()),
                candidates: unit_uuids,
            },
        );
    }
    let units_by_reference = group_units(instances, &at, &wanted);
    Ok(DeletionTargets { label, unit_uuids, units_by_reference, item_uuids: item_list })
}

/// One of the places coincides with this one.
pub open spec fn touches(places: Seq<(i64, i64)>, x: i64, y: i64) -> bool {
    exists|i: int|
        0 <= i < places.len() && coincident(
            x as int,
            y as int,
            (#[trigger] places[i]).0 as int,
            places[i].1 as int,
            COINCIDENT_TOLERANCE as int,
        )
}

/// The places without those that coincide with one kept before.
pub open spec fn deduped(places: Seq<(i64, i64)>) -> Seq<(i64, i64)>
    decreases places.len(),
{
    if places.len() == 0 {
        Seq::empty()
    } else {
        let rest = deduped(places.drop_last());
        if touches(rest, places.last().0, places.last().1) {
            rest
        } else {
            rest.push(places.last())
        }
    }
}

fn is_touched(places: &Vec<(i64, i64)>, x: i64, y: i64) -> (res: bool)
    ensures
        res == touches(places@, x, y),
{
    let mut i: usize = 0;
    while i < places.len()
        invariant
            i <= places@.len(),
            forall|j: int|
                0 <= j < i ==> !coincident(
                    x as int,
                    y as int,
                    (#[trigger] places@[j]).0 as int,
                    places@[j].1 as int,
                    COINCIDENT_TOLERANCE as int,
                ),
        decreases places@.len() - i,
    {
        let place = places[i];
        if points_coincident(x, y, place.0, place.1, COINCIDENT_TOLERANCE) {
            assert(places@[i as int] == place);
            return true;
        }
        i += 1;
    }
    false
}

/// Drops the places that coincide with one kept before.
pub fn dedup_points(places: &Vec<(i64, i64)>) -> (res: Vec<(i64, i64)>)
    ensures
        res@ == deduped(places@),
{
    let mut res: Vec<(i64, i64)> = Vec::new();
    let mut i: usize = 0;
    assert(places@.take(0) =~= Seq::empty());
    while i < places.len()
        invariant
            i <= places@.len(),
            res@ == deduped(places@.take(i as int)),
        decreases places@.len() - i,
    {
        let place = places[i];
        assert(places@.take(i + 1).drop_last() =~= places@.take(i as int));
        assert(places@.take(i + 1).last() == place);
        if !is_touched(&res, place.0, place.1) {
            res.push(place);
        }
        i += 1;
    }
    assert(places@.take(i as int) =~= places@);
    res
}

/// Every place is kept or coincides with one that is.
pub proof fn law_deduped_covers(places: Seq<(i64, i64)>, i: int)
    requires
        0 <= i < places.len(),
    ensures
        deduped(places).contains(places[i]) || touches(
            deduped(places),
            places[i].0,
            places[i].1,
        ),
    decreases places.len(),
{
    let rest = deduped(places.drop_last());
    if i < places.len() - 1 {
        law_deduped_covers(places.drop_last(), i);
        assert(places.drop_last()[i] == places[i]);
        if rest.contains(places[i]) {
            let k = rest.index_of(places[i]);
            assert(deduped(places)[k] == places[i]);
        } else {
            let k = choose|k: int|
                0 <= k < rest.len() && coincident(
                    places[i].0 as int,
                    places[i].1 as int,
                    (#[trigger] rest[k]).0 as int,
                    rest[k].1 as int,
                    COINCIDENT_TOLERANCE as int,
                );
            assert(deduped(places)[k] == rest[k]);
        }
    } else if !touches(rest, places[i].0, places[i].1) {
        assert(deduped(places)[rest.len() as int] == places[i]);
    }
}

/// The pins of a placed unit: where they end.
#[derive(PartialEq, Eq, Debug)]
pub struct PinGroup {
    pub uuid: Option<String>,
    pub places: Vec<(i64, i64)>,
}

/// The group is that of one of these units.
pub open spec fn group_selected(group: PinGroup, uuids: Seq<Seq<char>>) -> bool {
    group.uuid is Some && uuids.contains(group.uuid->0@)
}

/// The places of the groups among the first `n` that are selected, or of the
/// others.
pub open spec fn places_of(
    groups: Seq<PinGroup>,
    uuids: Seq<Seq<char>>,
    chosen: bool,
    n: nat,
) -> Seq<(i64, i64)>
    decreases n,
{
    if n == 0 {
        Seq::empty()
    } else {
        let rest = places_of(groups, uuids, chosen, (n - 1) as nat);
        if group_selected(groups[n - 1], uuids) == chosen {
            rest + groups[n - 1].places@
        } else {
            rest
        }
    }
}

/// The places of the pins that a deletion takes away.
pub open spec fn affected_places(groups: Seq<PinGroup>, uuids: Seq<Seq<char>>) -> Seq<(i64, i64)> {
    deduped(places_of(groups, uuids, true, groups.len()))
}

/// The places of the pins that stay.
pub open spec fn remaining_places(groups: Seq<PinGroup>, uuids: Seq<Seq<char>>) -> Seq<
    (i64, i64),
> {
    deduped(places_of(groups, uuids, false, groups.len()))
}

fn extend_places(list: &mut Vec<(i64, i64)>, more: &Vec<(i64, i64)>)
    ensures
        final(list)@ == old(list)@ + more@,
{
    let ghost before = list@;
    let mut i: usize = 0;
    assert(before + more@.take(0) =~= before);
    while i < more.len()
        invariant
            i <= more@.len(),
            list@ == before + more@.take(i as int),
        decreases more@.len() - i,
    {
        list.push(more[i]);
        assert(list@ =~= before + more@.take(i + 1));
        i += 1;
    }
    assert(more@.take(i as int) =~= more@);
}

fn collect_places(groups: &Vec<PinGroup>, uuids: &Vec<String>, chosen: bool) -> (res: Vec<
    (i64, i64),
>)
    ensures
        res@ == places_of(groups@, texts(uuids@), chosen, groups@.len()),
{
    let mut res: Vec<(i64, i64)> = Vec::new();
    let mut i: usize = 0;
    while i < groups.len()
        invariant
            i <= groups@.len(),
            res@ == places_of(groups@, texts(uuids@), chosen, i as nat),
        decreases groups@.len() - i,
    {
        let group = &groups[i];
        let own: bool = match &group.uuid {
            Some(uuid) => contains_text(uuids, uuid.as_str()),
            None => false,
        };
        if own == chosen {
            extend_places(&mut res, &group.places);
        }
        i += 1;
    }
    res
}

/// The places of the pins that deleting these units takes away.
pub fn affected_points(groups: &Vec<PinGroup>, unit_uuids: &Vec<String>) -> (res: Vec<(i64, i64)>)
    ensures
        res@ == affected_places(groups@, texts(unit_uuids@)),
{
    let places = collect_places(groups, unit_uuids, true);
    dedup_points(&places)
}

/// A no-connect flag.
#[derive(PartialEq, Eq, Debug)]
pub struct NoConnect {
    pub x: i64,
    pub y: i64,
    pub uuid: Option<String>,
}

/// The flag marks a pin that goes and none that stays.
pub open spec fn goes_along(
    marker: NoConnect,
    affected: Seq<(i64, i64)>,
    remaining: Seq<(i64, i64)>,
) -> bool {
    touches(affected, marker.x, marker.y) && !touches(remaining, marker.x, marker.y)
}

/// The flags among the first `n` that go along have identifiers.
pub open spec fn markers_known(
    markers: Seq<NoConnect>,
    affected: Seq<(i64, i64)>,
    remaining: Seq<(i64, i64)>,
    n: int,
) -> bool {
    forall|i: int|
        0 <= i < n && goes_along(#[trigger] markers[i], affected, remaining)
            ==> markers[i].uuid is Some
}

/// The identifiers of the flags that go along.
pub open spec fn marker_set(
    markers: Seq<NoConnect>,
    affected: Seq<(i64, i64)>,
    remaining: Seq<(i64, i64)>,
) -> Set<Seq<char>> {
    Set::new(
        |uuid: Seq<char>|
            exists|i: int|
                0 <= i < markers.len() && goes_along(#[trigger] markers[i], affected, remaining)
                    && markers[i].uuid->0@ == uuid,
    )
}

/// The reason why a flag that goes along cannot be deleted.
pub open spec fn nameless_marker(marker: NoConnect) -> Seq<char> {
    "attached no-connect at ("@ + millionths_text(marker.x as int) + ", "@ + millionths_text(
        marker.y as int,
    ) + ") has no UUID"@
}

/// Finds the no-connect flags that go along with the deleted units: those that
/// mark a pin of theirs and no pin that stays. One without an identifier is an
/// error.
pub fn find_markers(
    path: &str,
    groups: &Vec<PinGroup>,
    unit_uuids: &Vec<String>,
    markers: &Vec<NoConnect>,
) -> (res: Result<Vec<String>, ComponentDeleteTargetError>)
    ensures
        ({
            let affected = affected_places(groups@, texts(unit_uuids@));
            let remaining = remaining_places(groups@, texts(unit_uuids@));
            match res {
                Ok(list) => markers_known(markers@, affected, remaining, markers@.len() as int)
                    && texts(list@) == ordered_list_of(marker_set(markers@, affected, remaining))
                    && strictly_ordered(texts(list@)) && (forall|uuid: Seq<char>| #[trigger]
                    texts(list@).contains(uuid) <==> marker_set(
                        markers@,
                        affected,
                        remaining,
                    ).contains(uuid)),
                Err(error) => exists|i: int|
                    0 <= i < markers@.len() && goes_along(
                        #[trigger] markers@[i],
                        affected,
                        remaining,
                    ) && markers@[i].uuid is None && markers_known(
                        markers@,
                        affected,
                        remaining,
                        i,
                    ) && error@ == stale(path@, nameless_marker(markers@[i])),
            }
        }),
{
    let affected = affected_points(groups, unit_uuids);
    let stay = collect_places(groups, unit_uuids, false);
    let remaining = dedup_points(&stay);
    let mut list: Vec<String> = Vec::new();
    let mut i: usize = 0;
    while i < markers.len()
        invariant
            i <= markers@.len(),
            markers_known(markers@, affected@, remaining@, i as int),
            affected@ == affected_places(groups@, texts(unit_uuids@)),
            remaining@ == remaining_places(groups@, texts(unit_uuids@)),
            forall|uuid: Seq<char>| #[trigger]
                texts(list@).contains(uuid) <==> exists|j: int|
                    0 <= j < i && goes_along(#[trigger] markers@[j], affected@, remaining@)
                        && markers@[j].uuid->0@ == uuid,
        decreases markers@.len() - i,
    {
        let marker = &markers[i];
        let ghost before = texts(list@);
        if is_touched(&affected, marker.x, marker.y) && !is_touched(
            &remaining,
            marker.x,
            marker.y,
        ) {
            assert(goes_along(markers@[i as int], affected@, remaining@));
            match &marker.uuid {
                Some(uuid) => {
                    list.push(uuid.clone());
                    assert(texts(list@) =~= before.push(uuid@));
                },
                None => {
                    let reason = concat5(
                        "attached no-connect at (",
                        write_millionths(marker.x).as_str(),
                        ", ",
                        write_millionths(marker.y).as_str(),
                        ") has no UUID",
                    );
                    return Err(ComponentDeleteTargetError::stale(path, reason));
                },
            }
        }
        proof {
            let now = texts(list@);
            assert forall|uuid: Seq<char>| #[trigger] now.contains(uuid) <==> exists|j: int|
                0 <= j < i + 1 && goes_along(#[trigger] markers@[j], affected@, remaining@)
                    && markers@[j].uuid->0@ == uuid by {
                assert(before.contains(uuid) <==> exists|j: int|
                    0 <= j < i && goes_along(#[trigger] markers@[j], affected@, remaining@)
                        && markers@[j].uuid->0@ == uuid);
                if before.contains(uuid) {
                    assert(now[before.index_of(uuid)] == uuid);
                }
                if goes_along(markers@[i as int], affected@, remaining@) {
                    assert(now[before.len() as int] == markers@[i as int].uuid->0@);
                }
                if now.contains(uuid) && !before.contains(uuid) {
                    let k = now.index_of(uuid);
                    assert(k == before.len());
                }
            }
        }
        i += 1;
    }
    assert(texts(list@).to_set() =~= marker_set(markers@, affected@, remaining@));
    Ok(sorted_unique(&list))
}

/// How the items of a file differ after a change: by identifier.
#[derive(PartialEq, Eq, Debug)]
pub struct ItemDiff {
    pub removed: Vec<String>,
    pub added: Vec<String>,
    pub modified: Vec<String>,
}

/// The items in both whose text differs.
pub open spec fn modified_set(
    before: Map<Seq<char>, ItemView>,
    after: Map<Seq<char>, ItemView>,
) -> Set<Seq<char>> {
    Set::new(
        |uuid: Seq<char>|
            before.contains_key(uuid) && after.contains_key(uuid) && before[uuid].source
                != after[uuid].source,
    )
}

fn keys_missing(
    from: &TextMap<IndexedSchematicItem>,
    other: &TextMap<IndexedSchematicItem>,
) -> (res: Vec<String>)
    ensures
        texts(res@) == ordered_list_of(item_views(from@).dom().difference(item_views(other@).dom())),
        forall|x: Seq<char>| #[trigger]
            texts(res@).contains(x) <==> (item_views(from@).contains_key(x) && !item_views(
                other@,
            ).contains_key(x)),
{
    let keys = ordered_keys(from);
    let ghost names = texts(keys@);
    let mut list: Vec<String> = Vec::new();
    let mut i: usize = 0;
    while i < keys.len()
        invariant
            i <= keys@.len(),
            names == texts(keys@),
            forall|x: Seq<char>| #[trigger]
                texts(list@).contains(x) <==> (names.take(i as int).contains(x)
                    && !other@.contains_key(x)),
        decreases keys@.len() - i,
    {
        let ghost before = texts(list@);
        if !other.contains_key(keys[i].as_str()) {
            list.push(keys[i].clone());
            assert(texts(list@) =~= before.push(names[i as int]));
        }
        proof {
            lemma_kept_names(
                names,
                i as int,
                before,
                texts(list@),
                !other@.contains_key(names[i as int]),
                |x: Seq<char>| !other@.contains_key(x),
            );
        }
        i += 1;
    }
    proof {
        assert(names.take(i as int) =~= names);
        assert forall|x: Seq<char>| names.contains(x) <==> from@.contains_key(x) by {
            assert(from.keys().contains(x) <==> from@.contains_key(x));
        }
        assert(texts(list@).to_set() =~= item_views(from@).dom().difference(
            item_views(other@).dom(),
        ));
    }
    sorted_unique(&list)
}

/// One more name was kept, or passed over.
pub proof fn lemma_kept_names(
    names: Seq<Seq<char>>,
    i: int,
    before: Seq<Seq<char>>,
    after: Seq<Seq<char>>,
    keep: bool,
    wanted: spec_fn(Seq<char>) -> bool,
)
    requires
        0 <= i < names.len(),
        keep == wanted(names[i]),
        after == (if keep {
            before.push(names[i])
        } else {
            before
        }),
        forall|x: Seq<char>| #[trigger]
            before.contains(x) <==> (names.take(i).contains(x) && wanted(x)),
    ensures
        forall|x: Seq<char>| #[trigger]
            after.contains(x) <==> (names.take(i + 1).contains(x) && wanted(x)),
{
    let (a, b) = (names.take(i), names.take(i + 1));
    assert(b =~= a.push(names[i]));
    assert forall|x: Seq<char>| #[trigger]
        after.contains(x) <==> (b.contains(x) && wanted(x)) by {
        assert(before.contains(x) <==> (a.contains(x) && wanted(x)));
        if a.contains(x) {
            assert(b[a.index_of(x)] == x);
        }
        if x == names[i] {
            assert(b[i] == x);
        }
        if before.contains(x) {
            assert(after[before.index_of(x)] == x);
        }
        if keep {
            assert(after[before.len() as int] == names[i]);
        }
    }
}

fn keys_modified(
    before_items: &TextMap<IndexedSchematicItem>,
    after_items: &TextMap<IndexedSchematicItem>,
) -> (res: Vec<String>)
    ensures
        texts(res@) == ordered_list_of(
            modified_set(item_views(before_items@), item_views(after_items@)),
        ),
        forall|x: Seq<char>| #[trigger]
            texts(res@).contains(x) <==> modified_set(
                item_views(before_items@),
                item_views(after_items@),
            ).contains(x),
{
    let keys = ordered_keys(before_items);
    let ghost names = texts(keys@);
    let ghost wanted = |x: Seq<char>|
        before_items@.contains_key(x) && after_items@.contains_key(x) && before_items@[x].source@
            != after_items@[x].source@;
    let mut list: Vec<String> = Vec::new();
    let mut i: usize = 0;
    while i < keys.len()
        invariant
            i <= keys@.len(),
            names == texts(keys@),
            names == before_items.keys(),
            wanted == (|x: Seq<char>|
                before_items@.contains_key(x) && after_items@.contains_key(x)
                    && before_items@[x].source@ != after_items@[x].source@),
            forall|x: Seq<char>| #[trigger]
                texts(list@).contains(x) <==> (names.take(i as int).contains(x) && wanted(x)),
        decreases keys@.len() - i,
    {
        let ghost before = texts(list@);
        let key = keys[i].as_str();
        assert(names[i as int] == key@);
        let differs: bool = match (before_items.get(key), after_items.get(key)) {
            (Some(a), Some(b)) => a.source != b.source,
            _ => false,
        };
        assert(differs == wanted(key@));
        if differs {
            list.push(keys[i].clone());
            assert(texts(list@) =~= before.push(names[i as int]));
        }
        proof {
            lemma_kept_names(names, i as int, before, texts(list@), differs, wanted);
        }
        i += 1;
    }
    proof {
        assert(names.take(i as int) =~= names);
        let (a, b) = (item_views(before_items@), item_views(after_items@));
        assert forall|x: Seq<char>| texts(list@).contains(x) <==> modified_set(a, b).contains(
            x,
        ) by {
            assert(before_items.keys().contains(x) <==> before_items@.contains_key(x));
        }
        assert(texts(list@).to_set() =~= modified_set(a, b));
    }
    sorted_unique(&list)
}

/// How the items of a file differ after a change.
pub fn diff_items(
    before: &TextMap<IndexedSchematicItem>,
    after: &TextMap<IndexedSchematicItem>,
) -> (res: ItemDiff)
    ensures
        texts(res.removed@) == ordered_list_of(
            item_views(before@).dom().difference(item_views(after@).dom()),
        ),
        texts(res.added@) == ordered_list_of(
            item_views(after@).dom().difference(item_views(before@).dom()),
        ),
        texts(res.modified@) == ordered_list_of(
            modified_set(item_views(before@), item_views(after@)),
        ),
        forall|x: Seq<char>| #[trigger]
            texts(res.added@).contains(x) <==> (item_views(after@).contains_key(x) && !item_views(
                before@,
            ).contains_key(x)),
        forall|x: Seq<char>| #[trigger]
            texts(res.modified@).contains(x) <==> modified_set(
                item_views(before@),
                item_views(after@),
            ).contains(x),
{
    ItemDiff {
        removed: keys_missing(before, after),
        added: keys_missing(after, before),
        modified: keys_modified(before, after),
    }
}

/// How many of the first `n` instances have this reference.
pub open spec fn instance_count(
    instances: Seq<PlacedInstance>,
    reference: Seq<char>,
    n: nat,
) -> nat
    decreases n,
{
    if n == 0 {
        0
    } else {
        instance_count(instances, reference, (n - 1) as nat) + if instances[n - 1].reference@
            == reference {
            1nat
        } else {
            0
        }
    }
}

/// The first of these references that an instance still has.
pub open spec fn first_left(
    references: Seq<Seq<char>>,
    instances: Seq<PlacedInstance>,
    n: nat,
) -> Option<Seq<char>>
    decreases n,
{
    if n == 0 {
        None
    } else {
        match first_left(references, instances, (n - 1) as nat) {
            Some(reference) => Some(reference),
            None => if instance_count(instances, references[n - 1], instances.len()) > 0 {
                Some(references[n - 1])
            } else {
                None
            },
        }
    }
}

/// The first of these identifiers that an item still has.
pub open spec fn first_present(uuids: Seq<Seq<char>>, items: Set<Seq<char>>) -> Option<Seq<char>>
    decreases uuids.len(),
{
    if uuids.len() == 0 {
        None
    } else {
        match first_present(uuids.drop_last(), items) {
            Some(uuid) => Some(uuid),
            None => if items.contains(uuids.last()) {
                Some(uuids.last())
            } else {
                None
            },
        }
    }
}

/// The identifiers of the junctions.
pub open spec fn junctions(items: Map<Seq<char>, ItemView>) -> Set<Seq<char>> {
    Set::new(|uuid: Seq<char>| items.contains_key(uuid) && items[uuid].kind == "junction"@)
}

/// What a deletion that was carried out took along and changed.
#[derive(PartialEq, Eq, Debug)]
pub struct ComponentDeleteOutcome {
    pub units_by_reference: TextMap<Vec<String>>,
    pub marker_uuids: Vec<String>,
    pub item_uuids: Vec<String>,
    pub added_junctions: Vec<String>,
    pub pruned_junctions: Vec<String>,
}

/// Everything that a deletion was to remove.
pub open spec fn doomed(targets: DeletionTargets, markers: Seq<Seq<char>>) -> Seq<Seq<char>> {
    texts(targets.unit_uuids@) + markers + texts(targets.item_uuids@)
}

fn count_instances(instances: &Vec<PlacedInstance>, reference: &str) -> (res: usize)
    ensures
        res == instance_count(instances@, reference@, instances@.len()),
{
    let mut count: usize = 0;
    let mut i: usize = 0;
    while i < instances.len()
        invariant
            i <= instances@.len(),
            count <= i,
            count == instance_count(instances@, reference@, i as nat),
        decreases instances@.len() - i,
    {
        if text_eq(instances[i].reference.as_str(), reference) {
            count += 1;
        }
        i += 1;
    }
    count
}

proof fn lemma_left_stays(
    references: Seq<Seq<char>>,
    instances: Seq<PlacedInstance>,
    n: nat,
)
    requires
        n <= references.len(),
        first_left(references, instances, n) is Some,
    ensures
        first_left(references, instances, references.len()) == first_left(
            references,
            instances,
            n,
        ),
    decreases references.len() - n,
{
    if n < references.len() {
        lemma_left_stays(references, instances, n + 1);
    }
}

proof fn lemma_present_stays(uuids: Seq<Seq<char>>, items: Set<Seq<char>>, n: int)
    requires
        0 <= n <= uuids.len(),
        first_present(uuids.take(n), items) is Some,
    ensures
        first_present(uuids, items) == first_present(uuids.take(n), items),
    decreases uuids.len() - n,
{
    if n == uuids.len() {
        assert(uuids.take(n) =~= uuids);
    } else {
        assert(uuids.take(n + 1).drop_last() =~= uuids.take(n));
        lemma_present_stays(uuids, items, n + 1);
    }
}

fn extend_texts(list: &mut Vec<String>, more: &Vec<String>)
    ensures
        texts(final(list)@) == texts(old(list)@) + texts(more@),
{
    let ghost before = texts(list@);
    let ghost extra = texts(more@);
    let mut i: usize = 0;
    assert(before + extra.take(0) =~= before);
    while i < more.len()
        invariant
            i <= more@.len(),
            extra == texts(more@),
            texts(list@) == before + extra.take(i as int),
        decreases more@.len() - i,
    {
        let ghost now = texts(list@);
        list.push(more[i].clone());
        assert(texts(list@) =~= now.push(extra[i as int]));
        assert(before + extra.take(i + 1) =~= (before + extra.take(i as int)).push(
            extra[i as int],
        ));
        i += 1;
    }
    assert(extra.take(i as int) =~= extra);
}

fn find_present(uuids: &Vec<String>, items: &TextMap<IndexedSchematicItem>) -> (res: Option<usize>)
    ensures
        match res {
            Some(i) => i < uuids@.len() && first_present(
                texts(uuids@),
                item_views(items@).dom(),
            ) == Some(uuids@[i as int]@),
            None => first_present(texts(uuids@), item_views(items@).dom()) is None,
        },
{
    let ghost all = texts(uuids@);
    let ghost keys = item_views(items@).dom();
    let mut i: usize = 0;
    assert(all.take(0) =~= Seq::empty());
    while i < uuids.len()
        invariant
            i <= uuids@.len(),
            all == texts(uuids@),
            keys == item_views(items@).dom(),
            first_present(all.take(i as int), keys) is None,
        decreases uuids@.len() - i,
    {
        proof {
            assert(all.take(i + 1).drop_last() =~= all.take(i as int));
            assert(all.take(i + 1).last() == uuids@[i as int]@);
        }
        if items.contains_key(uuids[i].as_str()) {
            proof {
                lemma_present_stays(all, keys, i + 1);
            }
            return Some(i);
        }
        i += 1;
    }
    assert(all.take(i as int) =~= all);
    None
}

fn junctions_missing(
    from: &TextMap<IndexedSchematicItem>,
    other: &TextMap<IndexedSchematicItem>,
) -> (res: Vec<String>)
    ensures
        texts(res@) == ordered_list_of(
            junctions(item_views(from@)).difference(junctions(item_views(other@))),
        ),
{
    let keys = ordered_keys(from);
    let ghost names = texts(keys@);
    let ghost (a, b) = (item_views(from@), item_views(other@));
    let ghost wanted = |x: Seq<char>| junctions(a).contains(x) && !junctions(b).contains(x);
    let mut list: Vec<String> = Vec::new();
    let mut i: usize = 0;
    while i < keys.len()
        invariant
            i <= keys@.len(),
            names == texts(keys@),
            names == from.keys(),
            a == item_views(from@),
            b == item_views(other@),
            wanted == (|x: Seq<char>| junctions(a).contains(x) && !junctions(b).contains(x)),
            forall|x: Seq<char>| #[trigger]
                texts(list@).contains(x) <==> (names.take(i as int).contains(x) && wanted(x)),
        decreases keys@.len() - i,
    {
        let ghost before = texts(list@);
        let key = keys[i].as_str();
        assert(names[i as int] == key@);
        let here: bool = match from.get(key) {
            Some(item) => text_eq(item.kind.as_str(), "junction"),
            None => false,
        };
        let there: bool = match other.get(key) {
            Some(item) => text_eq(item.kind.as_str(), "junction"),
            None => false,
        };
        assert(here == junctions(a).contains(key@));
        assert(there == junctions(b).contains(key@));
        let keep: bool = here && !there;
        if keep {
            list.push(keys[i].clone());
            assert(texts(list@) =~= before.push(names[i as int]));
        }
        proof {
            lemma_kept_names(names, i as int, before, texts(list@), keep, wanted);
        }
        i += 1;
    }
    proof {
        assert(names.take(i as int) =~= names);
        let goal = junctions(a).difference(junctions(b));
        assert forall|x: Seq<char>| texts(list@).contains(x) <==> goal.contains(x) by {
            assert(from.keys().contains(x) <==> from@.contains_key(x));
        }
        assert(texts(list@).to_set() =~= goal);
    }
    sorted_unique(&list)
}

/// Holds the saved file to a deletion: none of the references may have a unit
/// left and none of the items may be there. Then the junctions that came and
/// went are reported.
pub fn verify_deletion(
    path: &str,
    targets: DeletionTargets,
    marker_uuids: Vec<String>,
    before_items: &TextMap<IndexedSchematicItem>,
    after_items: &TextMap<IndexedSchematicItem>,
    after_instances: &Vec<PlacedInstance>,
) -> (res: Result<ComponentDeleteOutcome, ComponentDeleteTargetError>)
    ensures
        ({
            let names = targets.units_by_reference.keys();
            let left = first_left(names, after_instances@, names.len());
            let still = first_present(
                doomed(targets, texts(marker_uuids@)),
                item_views(after_items@).dom(),
            );
            if left is Some {
                res matches Err(error) && error@ == stale(
                    path@,
                    "post-write readback still contains "@ + number_text(
                        instance_count(after_instances@, left->0, after_instances@.len()),
                    ) + " unit(s) of "@ + left->0,
                )
            } else if still is Some {
                res matches Err(error) && error@ == stale(
                    path@,
                    "post-write readback still contains deleted item UUID "@ + still->0,
                )
            } else {
                res matches Ok(outcome) && {
                    &&& outcome.units_by_reference == targets.units_by_reference
                    &&& outcome.marker_uuids == marker_uuids
                    &&& outcome.item_uuids == targets.item_uuids
                    &&& texts(outcome.added_junctions@) == ordered_list_of(
                        junctions(item_views(after_items@)).difference(
                            junctions(item_views(before_items@)),
                        ),
                    )
                    &&& texts(outcome.pruned_junctions@) == ordered_list_of(
                        junctions(item_views(before_items@)).difference(
                            junctions(item_views(after_items@)),
                        ),
                    )
                }
            }
        }),
{
    let ghost names = targets.units_by_reference.keys();
    let count: usize = targets.units_by_reference.len();
    let mut i: usize = 0;
    while i < count
        invariant
            i <= count,
            names == targets.units_by_reference.keys(),
            count == names.len(),
            first_left(names, after_instances@, i as nat) is None,
        decreases count - i,
    {
        let reference = targets.units_by_reference.key_at(i);
        let remaining: usize = count_instances(after_instances, reference.as_str());
        if remaining != 0 {
            proof {
                lemma_left_stays(names, after_instances@, (i + 1) as nat);
            }
            let mut reason = concat3(
                "post-write readback still contains ",
                write_number(remaining).as_str(),
                " unit(s) of ",
            );
            reason.append(reference.as_str());
            return Err(ComponentDeleteTargetError::stale(path, reason));
        }
        i += 1;
    }
    let mut uuids: Vec<String> = Vec::new();
    assert(texts(uuids@) =~= Seq::empty());
    extend_texts(&mut uuids, &targets.unit_uuids);
    extend_texts(&mut uuids, &marker_uuids);
    extend_texts(&mut uuids, &targets.item_uuids);
    assert(texts(uuids@) =~= doomed(targets, texts(marker_uuids@)));
    if let Some(k) = find_present(&uuids, after_items) {
        let reason = concat2(
            "post-write readback still contains deleted item UUID ",
            uuids[k].as_str(),
        );
        return Err(ComponentDeleteTargetError::stale(path, reason));
    }
    Ok(
        ComponentDeleteOutcome {
            units_by_reference: targets.units_by_reference,
            marker_uuids,
            item_uuids: targets.item_uuids,
            added_junctions: junctions_missing(after_items, before_items),
            pruned_junctions: junctions_missing(before_items, after_items),
        },
    )
}

/// A deletion that is reported as done has left none of its items in the file.
pub proof fn law_nothing_doomed_is_left(
    uuids: Seq<Seq<char>>,
    items: Set<Seq<char>>,
    i: int,
)
    requires
        first_present(uuids, items) is None,
        0 <= i < uuids.len(),
    ensures
        !items.contains(uuids[i]),
    decreases uuids.len(),
{
    if i < uuids.len() - 1 {
        law_nothing_doomed_is_left(uuids.drop_last(), items, i);
        assert(uuids.drop_last()[i] == uuids[i]);
    }
}

/// A flag on a pin that stays is never deleted, whatever else is at its place.
pub proof fn law_shared_markers_stay(
    marker: NoConnect,
    affected: Seq<(i64, i64)>,
    remaining: Seq<(i64, i64)>,
)
    requires
        touches(remaining, marker.x, marker.y),
    ensures
        !goes_along(marker, affected, remaining),
{
}

} // verus!
