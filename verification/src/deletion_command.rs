//! The command that carries a deletion out, and the changes it is made of.

use crate::deletion::{
    diff_items, doomed, item_views, modified_set, stale, DeletionTargets, IndexedSchematicItem,
    ItemView,
};
use crate::library_refresh::same_tree;
use crate::sexp::{Sexp, SexpNode};
use crate::text::{concat2, concat3, ordered_list_of, owned, texts};
use crate::text_map::{sorted_unique, TextMap};
use crate::tool_error::ComponentDeleteTargetError;
use vstd::prelude::*;
use vstd::string::*;

verus! {

/// A change to the items of a file, with a summary of what it is for.
#[derive(PartialEq, Eq, Debug)]
pub enum ItemChange {
    Delete { uuids: Vec<String>, summary: String },
    Insert { source: String, summary: String },
    Replace { uuid: String, source: String, summary: String },
}

/// The content of an [`ItemChange`].
pub enum ItemChangeView {
    Delete { uuids: Seq<Seq<char>>, summary: Seq<char> },
    Insert { source: Seq<char>, summary: Seq<char> },
    Replace { uuid: Seq<char>, source: Seq<char>, summary: Seq<char> },
}

impl View for ItemChange {
    type V = ItemChangeView;

    open spec fn view(&self) -> ItemChangeView {
        match self {
            ItemChange::Delete { uuids, summary } => ItemChangeView::Delete {
                uuids: texts(uuids@),
                summary: summary@,
            },
            ItemChange::Insert { source, summary } => ItemChangeView::Insert {
                source: source@,
                summary: summary@,
            },
            ItemChange::Replace { uuid, source, summary } => ItemChangeView::Replace {
                uuid: uuid@,
                source: source@,
                summary: summary@,
            },
        }
    }
}

/// The contents of a list of changes.
pub open spec fn item_changes(list: Seq<ItemChange>) -> Seq<ItemChangeView> {
    Seq::new(list.len(), |i: int| list[i]@)
}

/// The identifiers that went, in order.
pub open spec fn went(before: Map<Seq<char>, ItemView>, after: Map<Seq<char>, ItemView>) -> Seq<
    Seq<char>,
> {
    ordered_list_of(before.dom().difference(after.dom()))
}

/// The identifiers of items whose text changed, in order.
pub open spec fn altered(
    before: Map<Seq<char>, ItemView>,
    after: Map<Seq<char>, ItemView>,
) -> Seq<Seq<char>> {
    ordered_list_of(modified_set(before, after))
}

/// The one deletion of everything that went, if anything did.
pub open spec fn deletions(
    before: Map<Seq<char>, ItemView>,
    after: Map<Seq<char>, ItemView>,
    label: Seq<char>,
) -> Seq<ItemChangeView> {
    if went(before, after).len() == 0 {
        Seq::empty()
    } else {
        seq![
            ItemChangeView::Delete {
                uuids: went(before, after),
                summary: "delete "@ + label + " and dependent markers"@,
            },
        ]
    }
}

/// An insertion for everything that came.
pub open spec fn insertions(
    before: Map<Seq<char>, ItemView>,
    after: Map<Seq<char>, ItemView>,
    label: Seq<char>,
) -> Seq<ItemChangeView> {
    let came = went(after, before);
    Seq::new(
        came.len(),
        |i: int|
            ItemChangeView::Insert {
                source: after[came[i]].source,
                summary: "restore junction after deleting "@ + label,
            },
    )
}

/// A replacement for everything whose text changed.
pub open spec fn replacements(
    before: Map<Seq<char>, ItemView>,
    after: Map<Seq<char>, ItemView>,
    label: Seq<char>,
) -> Seq<ItemChangeView> {
    let list = altered(before, after);
    Seq::new(
        list.len(),
        |i: int|
            ItemChangeView::Replace {
                uuid: list[i],
                source: after[list[i]].source,
                summary: "reconcile "@ + list[i] + " after deleting "@ + label,
            },
    )
}

/// The changes that turn the items of one file into those of another.
pub open spec fn command_changes(
    before: Map<Seq<char>, ItemView>,
    after: Map<Seq<char>, ItemView>,
    label: Seq<char>,
) -> Seq<ItemChangeView> {
    deletions(before, after, label) + insertions(before, after, label) + replacements(
        before,
        after,
        label,
    )
}

/// Everything that is to be deleted at first, each once: the units, the
/// markers that go with them and the items that were named.
pub fn uuids_to_delete(targets: &DeletionTargets, markers: &Vec<String>) -> (res: Vec<String>)
    ensures
        texts(res@) == ordered_list_of(doomed(*targets, texts(markers@)).to_set()),
{
    let mut list: Vec<String> = Vec::new();
    assert(texts(list@) =~= Seq::empty());
    add_all(&mut list, &targets.unit_uuids);
    add_all(&mut list, markers);
    add_all(&mut list, &targets.item_uuids);
    assert(texts(list@) =~= doomed(*targets, texts(markers@)));
    sorted_unique(&list)
}

fn add_all(list: &mut Vec<String>, more: &Vec<String>)
    ensures
        texts(final(list)@) == texts(old(list)@) + texts(more@),
{
    let ghost start = texts(list@);
    let mut i: usize = 0;
    assert(start + texts(more@).take(0) =~= start);
    while i < more.len()
        invariant
            i <= more@.len(),
            texts(list@) == start + texts(more@).take(i as int),
            start == texts(old(list)@),
        decreases more@.len() - i,
    {
        let ghost before = texts(list@);
        list.push(more[i].clone());
        proof {
            assert(texts(list@) =~= before.push(more@[i as int]@));
            assert(texts(more@).take(i + 1) =~= texts(more@).take(i as int).push(
                more@[i as int]@,
            ));
            assert(texts(list@) =~= start + texts(more@).take(i + 1));
        }
        i += 1;
    }
    assert(texts(more@).take(i as int) =~= texts(more@));
}

fn source_of(items: &TextMap<IndexedSchematicItem>, uuid: &str) -> (res: String)
    requires
        item_views(items@).contains_key(uuid@),
    ensures
        res@ == item_views(items@)[uuid@].source,
{
    match items.get(uuid) {
        Some(item) => item.source.clone(),
        None => String::new(),
    }
}

/// Builds the changes of the command that turns the items of one file into
/// those of another. `label` names what is deleted.
pub fn plan_command(
    before: &TextMap<IndexedSchematicItem>,
    after: &TextMap<IndexedSchematicItem>,
    label: &str,
) -> (res: Vec<ItemChange>)
    ensures
        item_changes(res@) == command_changes(item_views(before@), item_views(after@), label@),
{
    let ghost (a, b) = (item_views(before@), item_views(after@));
    let diff = diff_items(before, after);
    let mut res: Vec<ItemChange> = Vec::new();
    assert(texts(diff.removed@).len() == diff.removed@.len());
    assert(texts(diff.added@).len() == diff.added@.len());
    assert(texts(diff.modified@).len() == diff.modified@.len());
    let added = diff.added;
    let modified = diff.modified;
    assert(item_changes(res@) =~= Seq::empty());
    if diff.removed.len() > 0 {
        let summary = concat3("delete ", label, " and dependent markers");
        let change = ItemChange::Delete { uuids: diff.removed, summary };
        let ghost view = change@;
        res.push(change);
        assert(item_changes(res@) =~= seq![view]);
    }
    assert(item_changes(res@) =~= deletions(a, b, label@));
    let ghost first = item_changes(res@);
    let ghost inserted = insertions(a, b, label@);
    let mut i: usize = 0;
    assert(first + inserted.take(0) =~= first);
    while i < added.len()
        invariant
            i <= added@.len(),
            b == item_views(after@),
            texts(added@) == went(b, a),
            inserted == insertions(a, b, label@),
            inserted.len() == added@.len(),
            forall|x: Seq<char>| #[trigger] texts(added@).contains(x) ==> b.contains_key(x),
            item_changes(res@) == first + inserted.take(i as int),
        decreases added@.len() - i,
    {
        let ghost done = item_changes(res@);
        proof {
            assert(texts(added@)[i as int] == added@[i as int]@);
            assert(texts(added@).contains(added@[i as int]@));
        }
        let source = source_of(after, added[i].as_str());
        let change = ItemChange::Insert {
            source,
            summary: concat2("restore junction after deleting ", label),
        };
        let ghost view = change@;
        res.push(change);
        proof {
            assert(item_changes(res@) =~= done.push(view));
            assert(inserted.take(i + 1) =~= inserted.take(i as int).push(inserted[i as int]));
            assert(item_changes(res@) =~= first + inserted.take(i + 1));
        }
        i += 1;
    }
    assert(inserted.take(i as int) =~= inserted);
    let ghost second = item_changes(res@);
    let ghost replaced = replacements(a, b, label@);
    let mut k: usize = 0;
    assert(second + replaced.take(0) =~= second);
    while k < modified.len()
        invariant
            k <= modified@.len(),
            b == item_views(after@),
            texts(modified@) == altered(a, b),
            replaced == replacements(a, b, label@),
            replaced.len() == modified@.len(),
            forall|x: Seq<char>| #[trigger] texts(modified@).contains(x) ==> b.contains_key(x),
            item_changes(res@) == second + replaced.take(k as int),
        decreases modified@.len() - k,
    {
        let ghost done = item_changes(res@);
        proof {
            assert(texts(modified@)[k as int] == modified@[k as int]@);
            assert(texts(modified@).contains(modified@[k as int]@));
        }
        let source = source_of(after, modified[k].as_str());
        let mut summary = concat3("reconcile ", modified[k].as_str(), " after deleting ");
        summary.append(label);
        let change = ItemChange::Replace { uuid: modified[k].clone(), source, summary };
        let ghost view = change@;
        res.push(change);
        proof {
            assert(item_changes(res@) =~= done.push(view));
            assert(replaced.take(k + 1) =~= replaced.take(k as int).push(replaced[k as int]));
            assert(item_changes(res@) =~= second + replaced.take(k + 1));
        }
        k += 1;
    }
    assert(replaced.take(k as int) =~= replaced);
    res
}

/// A tree as it was read, if it could be.
pub open spec fn opt_tree(tree: Option<SexpNode>) -> Option<Sexp> {
    match tree {
        Some(node) => Some(node@),
        None => None,
    }
}

/// Holds the text that a command would write to the one that is wanted. A
/// command that cannot say all of it is refused.
pub fn check_command(
    path: &str,
    prepared: &Option<SexpNode>,
    wanted: &Option<SexpNode>,
) -> (res: Result<(), ComponentDeleteTargetError>)
    ensures
        res is Ok <==> opt_tree(*prepared) == opt_tree(*wanted),
        res matches Err(error) ==> error@ == stale(
            path@,
            "the structural command cannot represent every dependent connectivity edit"@,
        ),
{
    let same: bool = match (prepared, wanted) {
        (Some(a), Some(b)) => same_tree(a, b),
        (None, None) => true,
        _ => false,
    };
    if same {
        Ok(())
    } else {
        Err(
            ComponentDeleteTargetError::stale(
                path,
                owned("the structural command cannot represent every dependent connectivity edit"),
            ),
        )
    }
}

spec fn kept(names: Seq<Seq<char>>, members: Set<Seq<char>>) -> Seq<Seq<char>>
    decreases names.len(),
{
    if names.len() == 0 {
        Seq::empty()
    } else if members.contains(names.last()) {
        kept(names.drop_last(), members).push(names.last())
    } else {
        kept(names.drop_last(), members)
    }
}

proof fn lemma_kept(names: Seq<Seq<char>>, members: Set<Seq<char>>, x: Seq<char>)
    ensures
        kept(names, members).contains(x) <==> names.contains(x) && members.contains(x),
    decreases names.len(),
{
    if names.len() > 0 {
        let rest = names.drop_last();
        lemma_kept(rest, members, x);
        let list = kept(names, members);
        let before = kept(rest, members);
        if before.contains(x) {
            assert(list[before.index_of(x)] == x);
        }
        if names.contains(x) {
            let i = names.index_of(x);
            if i < rest.len() {
                assert(rest[i] == x);
            } else if members.contains(x) {
                assert(list[list.len() - 1] == x);
            }
        }
        if rest.contains(x) {
            assert(names[rest.index_of(x)] == x);
        }
        if list.contains(x) {
            let i = list.index_of(x);
            if i < before.len() {
                assert(before[i] == x);
            } else {
                assert(names[names.len() - 1] == x);
            }
        }
    }
}

/// The members of a part of a list of names can be put in order.
proof fn lemma_part_is_listed(names: Seq<Seq<char>>, members: Set<Seq<char>>)
    requires
        forall|x: Seq<char>| #[trigger] members.contains(x) ==> names.contains(x),
    ensures
        forall|x: Seq<char>| #[trigger]
            ordered_list_of(members).contains(x) <==> members.contains(x),
{
    assert forall|x: Seq<char>| members.contains(x) <==> (Seq::<Seq<char>>::empty().contains(x)
        || kept(names, members).contains(x)) by {
        lemma_kept(names, members, x);
    }
    crate::text::lemma_can_be_ordered(Seq::empty(), kept(names, members), members);
}

/// The command covers every difference and touches nothing else: an item that
/// went is deleted, one that came is inserted, one whose text changed is
/// replaced, and one that stayed as it was is left alone.
pub proof fn law_the_command_covers_every_difference(
    before: TextMap<IndexedSchematicItem>,
    after: TextMap<IndexedSchematicItem>,
    label: Seq<char>,
    uuid: Seq<char>,
)
    ensures
        ({
            let (a, b) = (item_views(before@), item_views(after@));
            let changes = command_changes(a, b, label);
            &&& a.contains_key(uuid) && !b.contains_key(uuid) ==> exists|i: int|
                0 <= i < changes.len() && (#[trigger] changes[i] is Delete)
                    && changes[i]->uuids.contains(uuid)
            &&& !a.contains_key(uuid) && b.contains_key(uuid) ==> exists|i: int|
                0 <= i < changes.len() && (#[trigger] changes[i] is Insert)
                    && changes[i]->Insert_source == b[uuid].source
            &&& a.contains_key(uuid) && b.contains_key(uuid) && a[uuid].source != b[uuid].source
                ==> exists|i: int|
                0 <= i < changes.len() && (#[trigger] changes[i] is Replace) && changes[i]->uuid
                    == uuid && changes[i]->Replace_source == b[uuid].source
            &&& a.contains_key(uuid) && b.contains_key(uuid) && a[uuid].source == b[uuid].source
                ==> forall|i: int|
                0 <= i < changes.len() ==> {
                    &&& #[trigger] changes[i] is Delete ==> !changes[i]->uuids.contains(uuid)
                    &&& changes[i] is Replace ==> changes[i]->uuid != uuid
                }
        }),
{
    let (a, b) = (item_views(before@), item_views(after@));
    let gone = deletions(a, b, label);
    let fresh = insertions(a, b, label);
    let other = replacements(a, b, label);
    let changes = command_changes(a, b, label);
    assert forall|x: Seq<char>| a.contains_key(x) implies before.keys().contains(x) by {
        assert(before@.contains_key(x));
    }
    assert forall|x: Seq<char>| b.contains_key(x) implies after.keys().contains(x) by {
        assert(after@.contains_key(x));
    }
    lemma_part_is_listed(before.keys(), a.dom().difference(b.dom()));
    lemma_part_is_listed(after.keys(), b.dom().difference(a.dom()));
    lemma_part_is_listed(before.keys(), modified_set(a, b));
    assert(changes =~= gone + fresh + other);
    if a.contains_key(uuid) && !b.contains_key(uuid) {
        assert(went(a, b).contains(uuid));
        assert(changes[0] == gone[0]);
        assert(changes[0] is Delete && changes[0]->uuids.contains(uuid));
    }
    if !a.contains_key(uuid) && b.contains_key(uuid) {
        let came = went(b, a);
        assert(came.contains(uuid));
        let k = came.index_of(uuid);
        assert(changes[gone.len() + k] == fresh[k]);
        assert(changes[gone.len() + k] is Insert);
    }
    if a.contains_key(uuid) && b.contains_key(uuid) && a[uuid].source != b[uuid].source {
        let list = altered(a, b);
        assert(list.contains(uuid));
        let k = list.index_of(uuid);
        assert(changes[gone.len() + fresh.len() + k] == other[k]);
        assert(changes[gone.len() + fresh.len() + k] is Replace);
    }
    if a.contains_key(uuid) && b.contains_key(uuid) && a[uuid].source == b[uuid].source {
        assert forall|i: int| 0 <= i < changes.len() implies {
            &&& #[trigger] changes[i] is Delete ==> !changes[i]->uuids.contains(uuid)
            &&& changes[i] is Replace ==> changes[i]->uuid != uuid
        } by {
            if i < gone.len() {
                assert(changes[i] == gone[i]);
                assert(went(a, b).contains(uuid) ==> !b.contains_key(uuid));
            } else if i < gone.len() + fresh.len() {
                assert(changes[i] == fresh[i - gone.len()]);
            } else {
                let k = i - gone.len() - fresh.len();
                assert(changes[i] == other[k]);
                assert(altered(a, b).contains(altered(a, b)[k]));
                assert(modified_set(a, b).contains(altered(a, b)[k]));
            }
        }
    }
}

} // verus!
