//! Bringing embedded library symbols and their fields up to date.

use crate::deletion::PlacedInstance;
use crate::sexp::{nodes, Sexp, SexpNode};
use crate::text::{concat3, contains_text, ordered_list_of, owned, text_eq, texts};
use crate::text_map::sorted_unique;
use vstd::prelude::*;
use vstd::string::*;

verus! {

/// The instance is one of those that were asked for.
pub open spec fn wanted(instance: PlacedInstance, only: Option<Vec<String>>) -> bool {
    match only {
        Some(list) => texts(list@).contains(instance.reference@),
        None => true,
    }
}

/// The library names of the wanted instances among the first `n`, each once, in
/// the order in which they first occur.
pub open spec fn wanted_lib_ids(
    instances: Seq<PlacedInstance>,
    only: Option<Vec<String>>,
    n: nat,
) -> Seq<Seq<char>>
    decreases n,
{
    if n == 0 {
        Seq::empty()
    } else {
        let rest = wanted_lib_ids(instances, only, (n - 1) as nat);
        let own = instances[n - 1].lib_id@;
        if wanted(instances[n - 1], only) && !rest.contains(own) {
            rest.push(own)
        } else {
            rest
        }
    }
}

/// An instance has this reference.
pub open spec fn is_placed(instances: Seq<PlacedInstance>, reference: Seq<char>) -> bool {
    exists|i: int| 0 <= i < instances.len() && (#[trigger] instances[i]).reference@ == reference
}

/// The first of the first `n` references that no instance has.
pub open spec fn first_unplaced(
    list: Seq<String>,
    instances: Seq<PlacedInstance>,
    n: nat,
) -> Option<Seq<char>>
    decreases n,
{
    if n == 0 {
        None
    } else {
        match first_unplaced(list, instances, (n - 1) as nat) {
            Some(reference) => Some(reference),
            None => if is_placed(instances, list[n - 1]@) {
                None
            } else {
                Some(list[n - 1]@)
            },
        }
    }
}

fn has_instance(instances: &Vec<PlacedInstance>, reference: &str) -> (res: bool)
    ensures
        res == is_placed(instances@, reference@),
{
    let mut i: usize = 0;
    while i < instances.len()
        invariant
            i <= instances@.len(),
            forall|j: int| 0 <= j < i ==> (#[trigger] instances@[j]).reference@ != reference@,
        decreases instances@.len() - i,
    {
        if text_eq(instances[i].reference.as_str(), reference) {
            assert(instances@[i as int].reference@ == reference@);
            return true;
        }
        i += 1;
    }
    false
}

proof fn lemma_unplaced_stays(list: Seq<String>, instances: Seq<PlacedInstance>, n: nat)
    requires
        n <= list.len(),
        first_unplaced(list, instances, n) is Some,
    ensures
        first_unplaced(list, instances, list.len()) == first_unplaced(list, instances, n),
    decreases list.len() - n,
{
    if n < list.len() {
        lemma_unplaced_stays(list, instances, n + 1);
    }
}

/// The library names that are to be refreshed. One definition serves every
/// instance, so each is named once. A reference that is not placed is refused.
pub fn lib_ids_to_refresh(
    path: &str,
    instances: &Vec<PlacedInstance>,
    only: &Option<Vec<String>>,
) -> (res: Result<Vec<String>, String>)
    ensures
        ({
            let missing = match only {
                Some(list) => first_unplaced(list@, instances@, list@.len()),
                None => None,
            };
            match missing {
                Some(reference) => res matches Err(message) && message@ == "Component '"@
                    + reference + "' not found in "@ + path@,
                None => res matches Ok(list) && texts(list@) == wanted_lib_ids(
                    instances@,
                    *only,
                    instances@.len(),
                ),
            }
        }),
{
    if let Some(list) = only {
        let mut i: usize = 0;
        while i < list.len()
            invariant
                i <= list@.len(),
                *only == Some(*list),
                first_unplaced(list@, instances@, i as nat) is None,
            decreases list@.len() - i,
        {
            if !has_instance(instances, list[i].as_str()) {
                proof {
                    lemma_unplaced_stays(list@, instances@, (i + 1) as nat);
                }
                let mut message = concat3("Component '", list[i].as_str(), "' not found in ");
                message.append(path);
                return Err(message);
            }
            i += 1;
        }
    }
    let mut res: Vec<String> = Vec::new();
    let mut k: usize = 0;
    assert(texts(res@) =~= wanted_lib_ids(instances@, *only, 0));
    while k < instances.len()
        invariant
            k <= instances@.len(),
            texts(res@) == wanted_lib_ids(instances@, *only, k as nat),
        decreases instances@.len() - k,
    {
        let instance = &instances[k];
        let ghost before = texts(res@);
        let chosen: bool = match only {
            Some(list) => contains_text(list, instance.reference.as_str()),
            None => true,
        };
        if chosen && !contains_text(&res, instance.lib_id.as_str()) {
            res.push(instance.lib_id.clone());
            assert(texts(res@) =~= before.push(instance.lib_id@));
        }
        k += 1;
    }
    Ok(res)
}

/// What came of refreshing one definition.
#[derive(PartialEq, Eq, Debug)]
pub enum ReembedOutcome {
    Updated,
    Unchanged,
    PinsMoved(Vec<String>),
    Unresolved,
    NotEmbedded,
}

/// What came of refreshing some definitions.
#[derive(PartialEq, Eq, Debug)]
pub struct RefreshReport {
    pub updated: Vec<String>,
    pub unchanged: Vec<String>,
    pub pins_moved: Vec<usize>,
    pub errors: Vec<String>,
}

/// The sort of an outcome.
#[derive(Clone, Copy, PartialEq, Eq, Debug, Structural)]
pub enum OutcomeSort {
    Updated,
    Unchanged,
    PinsMoved,
    Failed,
}

/// The sort of an outcome.
pub open spec fn sort_of(outcome: ReembedOutcome) -> OutcomeSort {
    match outcome {
        ReembedOutcome::Updated => OutcomeSort::Updated,
        ReembedOutcome::Unchanged => OutcomeSort::Unchanged,
        ReembedOutcome::PinsMoved(_) => OutcomeSort::PinsMoved,
        ReembedOutcome::Unresolved => OutcomeSort::Failed,
        ReembedOutcome::NotEmbedded => OutcomeSort::Failed,
    }
}

/// What is said of a definition that could not be refreshed.
pub open spec fn refresh_error(lib_id: Seq<char>, outcome: ReembedOutcome) -> Seq<char> {
    match outcome {
        ReembedOutcome::Unresolved => "'"@ + lib_id
            + "' no longer resolves in any registered library — the embedded copy is left as it is"@,
        _ => "'"@ + lib_id + "' has no embedded definition to update"@,
    }
}

/// The names of those of the first `n` definitions with an outcome of this
/// sort.
pub open spec fn lib_ids_with(
    lib_ids: Seq<String>,
    outcomes: Seq<ReembedOutcome>,
    sort: OutcomeSort,
    n: nat,
) -> Seq<Seq<char>>
    decreases n,
{
    if n == 0 {
        Seq::empty()
    } else {
        let rest = lib_ids_with(lib_ids, outcomes, sort, (n - 1) as nat);
        if sort_of(outcomes[n - 1]) == sort {
            rest.push(
                if sort == OutcomeSort::Failed {
                    refresh_error(lib_ids[n - 1]@, outcomes[n - 1])
                } else {
                    lib_ids[n - 1]@
                },
            )
        } else {
            rest
        }
    }
}

/// The positions of those of the first `n` definitions whose pins moved.
pub open spec fn moved_positions(outcomes: Seq<ReembedOutcome>, n: nat) -> Seq<int>
    decreases n,
{
    if n == 0 {
        Seq::empty()
    } else {
        let rest = moved_positions(outcomes, (n - 1) as nat);
        if sort_of(outcomes[n - 1]) == OutcomeSort::PinsMoved {
            rest.push(n - 1)
        } else {
            rest
        }
    }
}

/// How many of the definitions have an outcome.
pub open spec fn paired(lib_ids: Seq<String>, outcomes: Seq<ReembedOutcome>) -> nat {
    if lib_ids.len() <= outcomes.len() {
        lib_ids.len()
    } else {
        outcomes.len()
    }
}

/// Sorts the outcomes of a refresh, each that of the definition at its
/// position.
pub fn summarise_refresh(lib_ids: &Vec<String>, outcomes: &Vec<ReembedOutcome>) -> (res:
    RefreshReport)
    ensures
        texts(res.updated@) == lib_ids_with(
            lib_ids@,
            outcomes@,
            OutcomeSort::Updated,
            paired(lib_ids@, outcomes@),
        ),
        texts(res.unchanged@) == lib_ids_with(
            lib_ids@,
            outcomes@,
            OutcomeSort::Unchanged,
            paired(lib_ids@, outcomes@),
        ),
        texts(res.errors@) == lib_ids_with(
            lib_ids@,
            outcomes@,
            OutcomeSort::Failed,
            paired(lib_ids@, outcomes@),
        ),
        crate::lists::ints(res.pins_moved@) == moved_positions(
            outcomes@,
            paired(lib_ids@, outcomes@),
        ),
{
    let mut updated: Vec<String> = Vec::new();
    let mut unchanged: Vec<String> = Vec::new();
    let mut errors: Vec<String> = Vec::new();
    let mut pins_moved: Vec<usize> = Vec::new();
    let mut i: usize = 0;
    assert(texts(updated@) =~= Seq::empty());
    assert(texts(unchanged@) =~= Seq::empty());
    assert(texts(errors@) =~= Seq::empty());
    assert(crate::lists::ints(pins_moved@) =~= Seq::empty());
    while i < lib_ids.len() && i < outcomes.len()
        invariant
            i <= paired(lib_ids@, outcomes@),
            texts(updated@) == lib_ids_with(lib_ids@, outcomes@, OutcomeSort::Updated, i as nat),
            texts(unchanged@) == lib_ids_with(
                lib_ids@,
                outcomes@,
                OutcomeSort::Unchanged,
                i as nat,
            ),
            texts(errors@) == lib_ids_with(lib_ids@, outcomes@, OutcomeSort::Failed, i as nat),
            crate::lists::ints(pins_moved@) == moved_positions(outcomes@, i as nat),
        decreases lib_ids@.len() - i,
    {
        let ghost before = (
            texts(updated@),
            texts(unchanged@),
            texts(errors@),
            crate::lists::ints(pins_moved@),
        );
        let lib_id = lib_ids[i].as_str();
        match &outcomes[i] {
            ReembedOutcome::Updated => {
                updated.push(owned(lib_id));
                assert(texts(updated@) =~= before.0.push(lib_id@));
            },
            ReembedOutcome::Unchanged => {
                unchanged.push(owned(lib_id));
                assert(texts(unchanged@) =~= before.1.push(lib_id@));
            },
            ReembedOutcome::PinsMoved(_) => {
                pins_moved.push(i);
                assert(crate::lists::ints(pins_moved@) =~= before.3.push(i as int));
            },
            ReembedOutcome::Unresolved => {
                let text = concat3(
                    "'",
                    lib_id,
                    "' no longer resolves in any registered library — the embedded copy is left as it is",
                );
                let ghost own = text@;
                errors.push(text);
                assert(texts(errors@) =~= before.2.push(own));
            },
            ReembedOutcome::NotEmbedded => {
                let text = concat3("'", lib_id, "' has no embedded definition to update");
                let ghost own = text@;
                errors.push(text);
                assert(texts(errors@) =~= before.2.push(own));
            },
        }
        i += 1;
    }
    RefreshReport { updated, unchanged, pins_moved, errors }
}

/// Whether a refresh writes anything.
pub fn refresh_writes(updated: usize, dry_run: bool) -> (res: bool)
    ensures
        res == (updated > 0 && !dry_run),
{
    updated > 0 && !dry_run
}

/// Whether two trees are equal.
pub fn same_tree(a: &SexpNode, b: &SexpNode) -> (res: bool)
    ensures
        res == (a@ == b@),
    decreases a,
{
    match (a, b) {
        (SexpNode::Atom(x), SexpNode::Atom(y)) => *x == *y,
        (SexpNode::Str(x), SexpNode::Str(y)) => *x == *y,
        (SexpNode::List(x), SexpNode::List(y)) => {
            let ghost (m, n) = (a@.items(), b@.items());
            assert(m.len() == x@.len() && n.len() == y@.len());
            if x.len() != y.len() {
                return false;
            }
            let mut i: usize = 0;
            while i < x.len()
                invariant
                    i <= x@.len(),
                    x@.len() == y@.len(),
                    *a == SexpNode::List(*x),
                    *b == SexpNode::List(*y),
                    m == a@.items(),
                    n == b@.items(),
                    m == nodes(x@),
                    n == nodes(y@),
                    forall|j: int| 0 <= j < i ==> m[j] == n[j],
                decreases x@.len() - i,
            {
                assert(decreases_to!(*a => a->List_0));
                assert(decreases_to!(*x => x@[i as int]));
                let same = same_tree(&x[i], &y[i]);
                assert(m[i as int] == x@[i as int]@ && n[i as int] == y@[i as int]@);
                if !same {
                    return false;
                }
                i += 1;
            }
            assert(m =~= n);
            true
        },
        _ => false,
    }
}

/// A placement node with these numbers.
pub open spec fn at_node(x: Seq<char>, y: Seq<char>, rotation: Seq<char>) -> Sexp {
    Sexp::List(
        seq![Sexp::Atom("at"@), Sexp::Atom(x), Sexp::Atom(y), Sexp::Atom(rotation)],
    )
}

/// The nodes of a property with its placement set, and whether that changed
/// anything. A property without a placement gets one in front.
pub open spec fn with_at(list: Seq<Sexp>, at: Sexp) -> (Seq<Sexp>, bool) {
    match first_at(list, list.len()) {
        Some(i) => (list.update(i, at), list[i] != at),
        None => (seq![at] + list, true),
    }
}

/// The position of the first placement among the first `n` nodes.
pub open spec fn first_at(list: Seq<Sexp>, n: nat) -> Option<int>
    decreases n,
{
    if n == 0 {
        None
    } else {
        match first_at(list, (n - 1) as nat) {
            Some(i) => Some(i),
            None => if list[n - 1].tagged("at"@) {
                Some(n - 1)
            } else {
                None
            },
        }
    }
}

proof fn lemma_first_at_stays(list: Seq<Sexp>, n: nat)
    requires
        n <= list.len(),
        first_at(list, n) is Some,
    ensures
        first_at(list, list.len()) == first_at(list, n),
    decreases list.len() - n,
{
    if n < list.len() {
        lemma_first_at_stays(list, n + 1);
    }
}

/// Sets the placement among the nodes of a property, with the numbers as they
/// are written. Tells whether anything changed, so that a field that is right
/// already is not reported as moved.
pub fn set_property_at(list: &mut Vec<SexpNode>, x: &str, y: &str, rotation: &str) -> (res: bool)
    ensures
        (nodes(final(list)@), res) == with_at(nodes(old(list)@), at_node(x@, y@, rotation@)),
{
    let ghost before = nodes(list@);
    let mut parts: Vec<SexpNode> = Vec::new();
    parts.push(SexpNode::Atom(owned("at")));
    parts.push(SexpNode::Atom(owned(x)));
    parts.push(SexpNode::Atom(owned(y)));
    parts.push(SexpNode::Atom(owned(rotation)));
    let ghost listed = parts@;
    let at = SexpNode::List(parts);
    let ghost wanted_node = at_node(x@, y@, rotation@);
    proof {
        assert(listed[0]@ == Sexp::Atom("at"@));
        assert(listed[1]@ == Sexp::Atom(x@));
        assert(listed[2]@ == Sexp::Atom(y@));
        assert(listed[3]@ == Sexp::Atom(rotation@));
        assert(at@.items() =~= nodes(listed));
        assert(at@.items() =~= wanted_node.items());
        assert(at@ == wanted_node);
    }
    let mut i: usize = 0;
    while i < list.len()
        invariant
            i <= list@.len(),
            before == nodes(list@),
            before == nodes(old(list)@),
            at@ == wanted_node,
            wanted_node == at_node(x@, y@, rotation@),
            first_at(before, i as nat) is None,
        decreases list@.len() - i,
    {
        assert(before[i as int] == list@[i as int]@);
        if list[i].is_tagged("at") {
            proof {
                lemma_first_at_stays(before, (i + 1) as nat);
            }
            if same_tree(&list[i], &at) {
                assert(before.update(i as int, wanted_node) =~= before);
                return false;
            }
            list.set(i, at);
            assert(nodes(list@) =~= before.update(i as int, wanted_node));
            return true;
        }
        i += 1;
    }
    list.insert(0, at);
    assert(nodes(list@) =~= seq![wanted_node] + before);
    true
}

/// Setting the same placement again changes nothing.
pub proof fn law_setting_a_place_twice_changes_nothing(list: Seq<Sexp>, at: Sexp)
    requires
        at.tagged("at"@),
    ensures
        with_at(with_at(list, at).0, at) == (with_at(list, at).0, false),
{
    let once = with_at(list, at).0;
    lemma_first_at_range(list, list.len());
    match first_at(list, list.len()) {
        Some(i) => {
            lemma_first_at_kept(list, once, i, i as nat);
            assert(once[i] == at);
            assert(first_at(once, (i + 1) as nat) == Some(i));
            lemma_first_at_stays(once, (i + 1) as nat);
            assert(once.update(i, at) =~= once);
        },
        None => {
            assert(once[0] == at);
            assert(first_at(once, 0) is None);
            assert(first_at(once, 1) == Some(0int));
            lemma_first_at_stays(once, 1);
            assert(once.update(0, at) =~= once);
        },
    }
}

proof fn lemma_first_at_range(list: Seq<Sexp>, n: nat)
    requires
        n <= list.len(),
    ensures
        first_at(list, n) matches Some(i) ==> 0 <= i < n && list[i].tagged("at"@) && first_at(
            list,
            i as nat,
        ) is None,
    decreases n,
{
    if n > 0 {
        lemma_first_at_range(list, (n - 1) as nat);
    }
}

proof fn lemma_first_at_kept(a: Seq<Sexp>, b: Seq<Sexp>, i: int, n: nat)
    requires
        0 <= i < a.len(),
        b.len() == a.len(),
        forall|j: int| 0 <= j < i ==> #[trigger] a[j] == b[j],
        n <= i,
    ensures
        first_at(b, n) == first_at(a, n),
    decreases n,
{
    if n > 0 {
        lemma_first_at_kept(a, b, i, (n - 1) as nat);
        assert(a[n - 1] == b[n - 1]);
    }
}

/// The references of a list that are not among others, in order.
pub open spec fn not_among(list: Seq<Seq<char>>, found: Seq<Seq<char>>) -> Set<Seq<char>> {
    list.to_set().difference(found.to_set())
}

/// The references that were asked for and not found, in order.
pub fn missing_references(asked: &Vec<String>, found: &Vec<String>) -> (res: Vec<String>)
    ensures
        texts(res@) == ordered_list_of(not_among(texts(asked@), texts(found@))),
{
    let ghost names = texts(asked@);
    let ghost others = texts(found@);
    let mut list: Vec<String> = Vec::new();
    let mut i: usize = 0;
    while i < asked.len()
        invariant
            i <= asked@.len(),
            names == texts(asked@),
            others == texts(found@),
            forall|x: Seq<char>| #[trigger]
                texts(list@).contains(x) <==> (names.take(i as int).contains(x)
                    && !others.contains(x)),
        decreases asked@.len() - i,
    {
        let ghost before = texts(list@);
        let keep = !contains_text(found, asked[i].as_str());
        assert(keep == !others.contains(names[i as int]));
        if keep {
            list.push(asked[i].clone());
            assert(texts(list@) =~= before.push(names[i as int]));
        }
        proof {
            crate::deletion::lemma_kept_names(
                names,
                i as int,
                before,
                texts(list@),
                keep,
                |x: Seq<char>| !others.contains(x),
            );
        }
        i += 1;
    }
    assert(names.take(i as int) =~= names);
    assert(texts(list@).to_set() =~= not_among(names, others));
    sorted_unique(&list)
}

} // verus!
