//! What refreshing definitions and resetting fields come to, told from the
//! placed symbols and their properties.

use crate::deletion::PlacedInstance;
use crate::field_reset::{
    after_reference, after_value, fields_that, first_named, models, reference_text, references_met,
    reports, target_node, to_reset, with_field, FieldReset, FieldTarget, PropertyModel, ResetReport,
    ResetSymbol,
};
use crate::library_refresh::{
    at_node, first_at, first_unplaced, is_placed, lib_ids_with, moved_positions, not_among, wanted,
    wanted_lib_ids, with_at, OutcomeSort, ReembedOutcome,
};
use crate::lists::{lemma_same_positions, positions_where};
use crate::readback_laws::lemma_somes_ordered;
use crate::sexp::Sexp;
use crate::text::{ordered_list_of, strictly_ordered, texts};
use vstd::prelude::*;
use vstd::string::*;

verus! {

/// The reference is one of those asked for; without a list every one is.
pub open spec fn is_asked(only: Option<Vec<String>>, reference: Seq<char>) -> bool {
    only matches Some(list) ==> exists|i: int| 0 <= i < list@.len() && #[trigger] list@[i]@ == reference
}

/// Exactly the definitions of the symbols asked for are refreshed, each once.
pub proof fn law_every_definition_asked_for_is_refreshed(
    instances: Seq<PlacedInstance>,
    only: Option<Vec<String>>,
    lib_id: Seq<char>,
)
    ensures
        wanted_lib_ids(instances, only, instances.len()).contains(lib_id) <==> exists|i: int|
            0 <= i < instances.len() && (#[trigger] instances[i]).lib_id@ == lib_id && is_asked(
                only,
                instances[i].reference@,
            ),
        wanted_lib_ids(instances, only, instances.len()).no_duplicates(),
{
    lemma_wanted(instances, only, instances.len(), lib_id);
}

proof fn lemma_asked(only: Option<Vec<String>>, reference: Seq<char>)
    ensures
        only matches Some(list) ==> texts(list@).contains(reference) == is_asked(only, reference),
{
    if only is Some {
        let list = only->0@;
        if texts(list).contains(reference) {
            let i = texts(list).index_of(reference);
            assert(list[i]@ == reference);
        }
        if is_asked(only, reference) {
            let i = choose|i: int| 0 <= i < list.len() && #[trigger] list[i]@ == reference;
            assert(texts(list)[i] == reference);
        }
    }
}

proof fn lemma_wanted(
    instances: Seq<PlacedInstance>,
    only: Option<Vec<String>>,
    n: nat,
    lib_id: Seq<char>,
)
    requires
        n <= instances.len(),
    ensures
        wanted_lib_ids(instances, only, n).contains(lib_id) <==> exists|i: int|
            0 <= i < n && (#[trigger] instances[i]).lib_id@ == lib_id && is_asked(
                only,
                instances[i].reference@,
            ),
        wanted_lib_ids(instances, only, n).no_duplicates(),
    decreases n,
{
    if n > 0 {
        lemma_wanted(instances, only, (n - 1) as nat, lib_id);
        lemma_asked(only, instances[n - 1].reference@);
        let rest = wanted_lib_ids(instances, only, (n - 1) as nat);
        let list = wanted_lib_ids(instances, only, n);
        assert(wanted(instances[n - 1], only) == is_asked(only, instances[n - 1].reference@));
        if rest.contains(lib_id) {
            assert(list[rest.index_of(lib_id)] == lib_id);
        }
        if list.contains(lib_id) && !rest.contains(lib_id) {
            let q = list.index_of(lib_id);
            assert(q == rest.len());
        }
        if instances[n - 1].lib_id@ == lib_id && is_asked(only, instances[n - 1].reference@)
            && !rest.contains(lib_id) {
            assert(list[list.len() - 1] == lib_id);
        }
        assert(list.no_duplicates()) by {
            assert forall|i: int, j: int| 0 <= i < j < list.len() implies list[i] != list[j] by {
                assert(list[i] == rest[i]);
                if j < rest.len() {
                    assert(list[j] == rest[j]);
                } else {
                    assert(rest.contains(rest[i]));
                }
            }
        }
    }
}

/// A reference is missed exactly if no placed symbol has it, and the first such
/// is named.
pub proof fn law_the_first_missing_reference_is_named(
    list: Seq<String>,
    instances: Seq<PlacedInstance>,
)
    ensures
        match first_unplaced(list, instances, list.len()) {
            None => forall|k: int|
                0 <= k < list.len() ==> #[trigger] is_placed(instances, list[k]@),
            Some(reference) => exists|k: int|
                0 <= k < list.len() && !#[trigger] is_placed(instances, list[k]@) && list[k]@
                    == reference && forall|j: int|
                    0 <= j < k ==> #[trigger] is_placed(instances, list[j]@),
        },
        forall|reference: Seq<char>| #[trigger]
            is_placed(instances, reference) <==> instances.map_values(
                |i: PlacedInstance| i.reference@,
            ).contains(reference),
{
    lemma_unplaced(list, instances, list.len());
    let names = instances.map_values(|i: PlacedInstance| i.reference@);
    assert forall|reference: Seq<char>| #[trigger]
        is_placed(instances, reference) <==> names.contains(reference) by {
        if is_placed(instances, reference) {
            let i = choose|i: int|
                0 <= i < instances.len() && (#[trigger] instances[i]).reference@ == reference;
            assert(names[i] == reference);
        }
        if names.contains(reference) {
            let i = names.index_of(reference);
            assert(instances[i].reference@ == reference);
        }
    }
}

proof fn lemma_unplaced(list: Seq<String>, instances: Seq<PlacedInstance>, n: nat)
    requires
        n <= list.len(),
    ensures
        match first_unplaced(list, instances, n) {
            None => forall|k: int| 0 <= k < n ==> #[trigger] is_placed(instances, list[k]@),
            Some(reference) => exists|k: int|
                0 <= k < n && !#[trigger] is_placed(instances, list[k]@) && list[k]@ == reference
                    && forall|j: int| 0 <= j < k ==> #[trigger] is_placed(instances, list[j]@),
        },
    decreases n,
{
    if n > 0 {
        lemma_unplaced(list, instances, (n - 1) as nat);
        if first_unplaced(list, instances, (n - 1) as nat) is None && !is_placed(
            instances,
            list[n - 1]@,
        ) {
            assert(!is_placed(instances, list[n - 1]@) && list[n - 1]@ == list[n - 1]@);
        }
    }
}

/// What is said of a definition that could not be refreshed.
pub open spec fn failure_text(lib_id: Seq<char>, outcome: ReembedOutcome) -> Seq<char> {
    if outcome is Unresolved {
        "'"@ + lib_id
            + "' no longer resolves in any registered library — the embedded copy is left as it is"@
    } else {
        "'"@ + lib_id + "' has no embedded definition to update"@
    }
}

/// Every definition is reported by its own outcome, in order: as updated, as
/// unchanged, as one whose pins moved, or as one that failed.
pub proof fn law_every_outcome_is_reported(
    lib_ids: Seq<String>,
    outcomes: Seq<ReembedOutcome>,
    n: nat,
)
    requires
        n <= lib_ids.len(),
        n <= outcomes.len(),
    ensures
        lib_ids_with(lib_ids, outcomes, OutcomeSort::Updated, n) == positions_where(
            |i: int| outcomes[i] is Updated,
            n,
        ).map_values(|i: int| lib_ids[i]@),
        lib_ids_with(lib_ids, outcomes, OutcomeSort::Unchanged, n) == positions_where(
            |i: int| outcomes[i] is Unchanged,
            n,
        ).map_values(|i: int| lib_ids[i]@),
        lib_ids_with(lib_ids, outcomes, OutcomeSort::Failed, n) == positions_where(
            |i: int| outcomes[i] is Unresolved || outcomes[i] is NotEmbedded,
            n,
        ).map_values(|i: int| failure_text(lib_ids[i]@, outcomes[i])),
        moved_positions(outcomes, n) == positions_where(
            |i: int| outcomes[i] is PinsMoved,
            n,
        ),
    decreases n,
{
    if n > 0 {
        law_every_outcome_is_reported(lib_ids, outcomes, (n - 1) as nat);
    }
    assert(lib_ids_with(lib_ids, outcomes, OutcomeSort::Updated, n) =~= positions_where(
        |i: int| outcomes[i] is Updated,
        n,
    ).map_values(|i: int| lib_ids[i]@));
    assert(lib_ids_with(lib_ids, outcomes, OutcomeSort::Unchanged, n) =~= positions_where(
        |i: int| outcomes[i] is Unchanged,
        n,
    ).map_values(|i: int| lib_ids[i]@));
    assert(lib_ids_with(lib_ids, outcomes, OutcomeSort::Failed, n) =~= positions_where(
        |i: int| outcomes[i] is Unresolved || outcomes[i] is NotEmbedded,
        n,
    ).map_values(|i: int| failure_text(lib_ids[i]@, outcomes[i])));
    assert(moved_positions(outcomes, n) =~= positions_where(
        |i: int| outcomes[i] is PinsMoved,
        n,
    ));
}

/// Node `i` is the first placement of a property.
pub open spec fn is_first_place(list: Seq<Sexp>, i: int) -> bool {
    &&& 0 <= i < list.len()
    &&& list[i].tagged("at"@)
    &&& forall|j: int| 0 <= j < i ==> !(#[trigger] list[j]).tagged("at"@)
}

proof fn lemma_first_at(list: Seq<Sexp>, n: nat)
    requires
        n <= list.len(),
    ensures
        match first_at(list, n) {
            Some(i) => i < n && is_first_place(list, i),
            None => forall|j: int| 0 <= j < n ==> !(#[trigger] list[j]).tagged("at"@),
        },
    decreases n,
{
    if n > 0 {
        lemma_first_at(list, (n - 1) as nat);
    }
}

/// Setting the place of a property replaces its first placement and nothing
/// else, or puts one in front where there is none. It counts as a change unless
/// the placement was the same.
pub proof fn law_only_the_place_of_a_property_is_set(list: Seq<Sexp>, at: Sexp, i: int)
    ensures
        is_first_place(list, i) ==> with_at(list, at).0 == list.update(i, at) && with_at(
            list,
            at,
        ).1 == (list[i] != at),
        (forall|j: int| 0 <= j < list.len() ==> !(#[trigger] list[j]).tagged("at"@)) ==> with_at(
            list,
            at,
        ).0 == seq![at] + list && with_at(list, at).1,
{
    lemma_first_at(list, list.len());
    if is_first_place(list, i) && first_at(list, list.len()) is Some {
        let k = first_at(list, list.len())->0;
        if k < i {
            assert(!list[k].tagged("at"@));
        } else if i < k {
            assert(!list[i].tagged("at"@));
        }
    }
}

/// The symbol is one of those asked for.
pub open spec fn is_meant(symbol: ResetSymbol, only: Option<Vec<String>>) -> bool {
    symbol.reference matches Some(reference) && is_asked(only, reference@)
}

/// The name of a field: each symbol has two, its reference and its value.
pub open spec fn field_of(e: int) -> Seq<char> {
    if e % 2 == 0 {
        "Reference"@
    } else {
        "Value"@
    }
}

/// Where the library anchors the field.
pub open spec fn anchor_of(symbol: ResetSymbol, e: int) -> Option<FieldTarget> {
    if e % 2 == 0 {
        symbol.reference_target
    } else {
        symbol.value_target
    }
}

/// Property `p` is the first with this name.
pub open spec fn is_first_property(symbol: ResetSymbol, name: Seq<char>, p: int) -> bool {
    &&& 0 <= p < symbol.properties@.len()
    &&& symbol.properties@[p].name@ == name
    &&& forall|q: int| 0 <= q < p ==> (#[trigger] symbol.properties@[q]).name@ != name
}

/// A placement node with these numbers.
pub open spec fn place_node(target: FieldTarget) -> Sexp {
    Sexp::List(
        seq![
            Sexp::Atom("at"@),
            Sexp::Atom(target.x@),
            Sexp::Atom(target.y@),
            Sexp::Atom(target.rotation@),
        ],
    )
}

/// The property is in its place: its first placement is the anchor.
pub open spec fn is_in_place(symbol: ResetSymbol, p: int, target: FieldTarget) -> bool {
    exists|i: int| #[trigger]
        is_first_place(crate::sexp::nodes(symbol.properties@[p].nodes@), i) && crate::sexp::nodes(
            symbol.properties@[p].nodes@,
        )[i] == place_node(target)
}

/// What becomes of a field.
pub open spec fn becomes(symbol: ResetSymbol, e: int) -> FieldReset {
    match anchor_of(symbol, e) {
        None => FieldReset::NoAnchor,
        Some(target) => if exists|p: int| #[trigger] is_first_property(symbol, field_of(e), p) {
            if exists|p: int| #[trigger]
                is_first_property(symbol, field_of(e), p) && is_in_place(symbol, p, target) {
                FieldReset::Unchanged
            } else {
                FieldReset::Moved
            }
        } else {
            FieldReset::NoProperty
        },
    }
}

/// Every field of every symbol asked for is reported, as what became of it, in
/// order, and the symbols asked for are met.
pub proof fn law_every_field_is_reported(
    symbols: Seq<ResetSymbol>,
    only: Option<Vec<String>>,
    outcome: FieldReset,
    n: nat,
)
    requires
        n <= symbols.len(),
    ensures
        fields_that(symbols, only, outcome, n) == positions_where(
            |e: int| is_meant(symbols[e / 2], only) && becomes(symbols[e / 2], e) == outcome,
            2 * n,
        ).map_values(|e: int| reference_text(symbols[e / 2]) + "."@ + field_of(e)),
        references_met(symbols, only, n) == positions_where(
            |i: int| is_meant(symbols[i], only),
            n,
        ).map_values(|i: int| symbols[i].reference->0@),
    decreases n,
{
    let due = |e: int| is_meant(symbols[e / 2], only) && becomes(symbols[e / 2], e) == outcome;
    let shown = |e: int| reference_text(symbols[e / 2]) + "."@ + field_of(e);
    let meant = |i: int| is_meant(symbols[i], only);
    let named = |i: int| symbols[i].reference->0@;
    if n > 0 {
        law_every_field_is_reported(symbols, only, outcome, (n - 1) as nat);
        let symbol = symbols[n - 1];
        if symbol.reference is Some {
            lemma_asked(only, symbol.reference->0@);
        }
        assert(to_reset(symbol, only) == is_meant(symbol, only));
        lemma_becomes(symbol);
        let rest = fields_that(symbols, only, outcome, (n - 1) as nat);
        let before = positions_where(due, (2 * n - 2) as nat);
        let middle = positions_where(due, (2 * n - 1) as nat);
        let own = reference_text(symbol);
        assert((2 * n - 2) / 2 == n - 1 && (2 * n - 1) / 2 == n - 1);
        assert((2 * n - 2) % 2 == 0 && (2 * n - 1) % 2 == 1);
        assert(due(2 * n - 2) == (is_meant(symbol, only) && after_reference(symbol).1 == outcome));
        assert(due(2 * n - 1) == (is_meant(symbol, only) && after_value(symbol).1 == outcome));
        assert(middle.map_values(shown) =~= (if due(2 * n - 2) {
            before.map_values(shown).push(own + "."@ + "Reference"@)
        } else {
            before.map_values(shown)
        }));
        assert(positions_where(due, 2 * n).map_values(shown) =~= (if due(2 * n - 1) {
            middle.map_values(shown).push(own + "."@ + "Value"@)
        } else {
            middle.map_values(shown)
        }));
        assert(positions_where(meant, n).map_values(named) =~= (if meant(n - 1) {
            positions_where(meant, (n - 1) as nat).map_values(named).push(own)
        } else {
            positions_where(meant, (n - 1) as nat).map_values(named)
        }));
    } else {
        assert(positions_where(due, 0).map_values(shown) =~= Seq::empty());
        assert(positions_where(meant, 0).map_values(named) =~= Seq::empty());
    }
}

proof fn lemma_first_named(list: Seq<PropertyModel>, name: Seq<char>, n: nat)
    requires
        n <= list.len(),
    ensures
        match first_named(list, name, n) {
            Some(p) => 0 <= p < n && list[p].name == name && forall|q: int|
                0 <= q < p ==> (#[trigger] list[q]).name != name,
            None => forall|q: int| 0 <= q < n ==> (#[trigger] list[q]).name != name,
        },
    decreases n,
{
    if n > 0 {
        lemma_first_named(list, name, (n - 1) as nat);
    }
}

proof fn lemma_becomes(symbol: ResetSymbol)
    ensures
        forall|e: int| e % 2 == 0 ==> after_reference(symbol).1 == #[trigger] becomes(symbol, e),
        forall|e: int| e % 2 == 1 ==> after_value(symbol).1 == #[trigger] becomes(symbol, e),
{
    reveal_strlit("Reference");
    reveal_strlit("Value");
    let list = models(symbol.properties@);
    let next = after_reference(symbol).0;
    assert("Reference"@ != "Value"@) by {
        assert("Reference"@.len() != "Value"@.len());
    }
    lemma_first_named(list, "Reference"@, list.len());
    lemma_first_named(list, "Value"@, list.len());
    lemma_first_named(next, "Value"@, next.len());
    lemma_field(symbol, 0);
    lemma_field(symbol, 1);
    assert(next.len() == list.len());
    assert forall|q: int| 0 <= q < list.len() implies (#[trigger] next[q]).name == list[q].name && (
    list[q].name == "Value"@ ==> next[q] == list[q]) by {}
    assert(first_named(next, "Value"@, next.len()) == first_named(list, "Value"@, list.len())) by {
        let (a, b) = (
            first_named(next, "Value"@, next.len()),
            first_named(list, "Value"@, list.len()),
        );
        if a is Some && b is Some {
            if a->0 < b->0 {
                assert(list[a->0].name != "Value"@);
            } else if b->0 < a->0 {
                assert(next[b->0].name != "Value"@);
            }
        } else if a is Some {
            assert(list[a->0].name != "Value"@);
        } else if b is Some {
            assert(next[b->0].name != "Value"@);
        }
    }
    assert(after_value(symbol).1 == with_field(list, "Value"@, symbol.value_target).1);
    assert forall|e: int| e % 2 == 0 implies after_reference(symbol).1 == #[trigger] becomes(
        symbol,
        e,
    ) by {
        assert(field_of(e) == field_of(0) && anchor_of(symbol, e) == anchor_of(symbol, 0));
    }
    assert forall|e: int| e % 2 == 1 implies after_value(symbol).1 == #[trigger] becomes(
        symbol,
        e,
    ) by {
        assert(field_of(e) == field_of(1) && anchor_of(symbol, e) == anchor_of(symbol, 1));
    }
}

proof fn lemma_field(symbol: ResetSymbol, e: int)
    ensures
        with_field(models(symbol.properties@), field_of(e), anchor_of(symbol, e)).1 == becomes(
            symbol,
            e,
        ),
{
    let list = models(symbol.properties@);
    let name = field_of(e);
    lemma_first_named(list, name, list.len());
    if anchor_of(symbol, e) is Some {
        let target = anchor_of(symbol, e)->0;
        let at = target_node(target);
        assert(at == at_node(target.x@, target.y@, target.rotation@));
        assert(at == place_node(target));
        match first_named(list, name, list.len()) {
            Some(p) => {
                assert(is_first_property(symbol, name, p)) by {
                    assert forall|q: int| 0 <= q < p implies (
                    #[trigger] symbol.properties@[q]).name@ != name by {
                        assert(list[q].name != name);
                    }
                }
                assert forall|q: int| #[trigger] is_first_property(symbol, name, q) implies q
                    == p by {
                    if q < p {
                        assert(symbol.properties@[q].name@ != name);
                    } else if p < q {
                        assert(symbol.properties@[p].name@ != name);
                    }
                }
                let own = list[p].nodes;
                assert(own == crate::sexp::nodes(symbol.properties@[p].nodes@));
                lemma_first_at(own, own.len());
                assert(with_at(own, at).1 == !is_in_place(symbol, p, target)) by {
                    if first_at(own, own.len()) is Some {
                        let i = first_at(own, own.len())->0;
                        assert(is_first_place(own, i));
                        if is_in_place(symbol, p, target) {
                            let k = choose|k: int| #[trigger]
                                is_first_place(own, k) && own[k] == place_node(target);
                            if k < i {
                                assert(!own[k].tagged("at"@));
                            } else if i < k {
                                assert(!own[i].tagged("at"@));
                            }
                        }
                    }
                }
            },
            None => {
                assert forall|q: int| !#[trigger] is_first_property(symbol, name, q) by {
                    if 0 <= q < list.len() {
                        assert(list[q].name != name);
                    }
                }
            },
        }
    }
}

/// The fields that come to this, as they are told.
pub open spec fn told(
    symbols: Seq<ResetSymbol>,
    only: Option<Vec<String>>,
    outcome: FieldReset,
) -> Seq<Seq<char>> {
    positions_where(
        |e: int| is_meant(symbols[e / 2], only) && becomes(symbols[e / 2], e) == outcome,
        2 * symbols.len(),
    ).map_values(|e: int| reference_text(symbols[e / 2]) + "."@ + field_of(e))
}

/// A reset tells of every field that was meant under what became of it.
pub proof fn law_a_reset_tells_of_every_field(
    report: ResetReport,
    symbols: Seq<ResetSymbol>,
    only: Option<Vec<String>>,
)
    requires
        reports(report, symbols, only, symbols.len()),
    ensures
        texts(report.moved@) == told(symbols, only, FieldReset::Moved),
        texts(report.unchanged@) == told(symbols, only, FieldReset::Unchanged),
        texts(report.no_anchor@) == told(symbols, only, FieldReset::NoAnchor),
        texts(report.no_property@) == told(symbols, only, FieldReset::NoProperty),
{
    lemma_told(symbols, only, FieldReset::Moved);
    lemma_told(symbols, only, FieldReset::Unchanged);
    lemma_told(symbols, only, FieldReset::NoAnchor);
    lemma_told(symbols, only, FieldReset::NoProperty);
}

proof fn lemma_told(symbols: Seq<ResetSymbol>, only: Option<Vec<String>>, outcome: FieldReset)
    ensures
        fields_that(symbols, only, outcome, symbols.len()) == told(symbols, only, outcome),
{
    law_every_field_is_reported(symbols, only, outcome, symbols.len());
    let due = |e: int| is_meant(symbols[e / 2], only) && becomes(symbols[e / 2], e) == outcome;
    let shown = |e: int| reference_text(symbols[e / 2]) + "."@ + field_of(e);
    let at = positions_where(due, 2 * symbols.len());
    assert forall|f: spec_fn(int) -> bool|
        (forall|e: int| 0 <= e < 2 * symbols.len() ==> #[trigger] f(e) == due(e))
            implies #[trigger] positions_where(f, 2 * symbols.len()) == at by {
        lemma_same_positions(f, due, 2 * symbols.len());
    }
    assert(told(symbols, only, outcome) =~= at.map_values(shown));
    assert(fields_that(symbols, only, outcome, symbols.len()) =~= at.map_values(shown));
}

/// What is told as not found is what was asked for and not met, in order.
pub proof fn law_what_was_not_met_is_told(asked: Seq<Seq<char>>, met: Seq<Seq<char>>)
    ensures
        strictly_ordered(ordered_list_of(not_among(asked, met))),
        forall|x: Seq<char>| #[trigger]
            ordered_list_of(not_among(asked, met)).contains(x) <==> asked.contains(x)
                && !met.contains(x),
{
    let members = not_among(asked, met);
    let left = Seq::new(
        asked.len(),
        |i: int|
            if met.contains(asked[i]) {
                None
            } else {
                Some(asked[i])
            },
    );
    assert forall|x: Seq<char>| #[trigger] members.contains(x) <==> left.contains(Some(x)) by {
        if members.contains(x) {
            let i = asked.index_of(x);
            assert(left[i] == Some(x));
        }
        if left.contains(Some(x)) {
            let i = left.index_of(Some(x));
            assert(asked[i] == x);
            assert(asked.contains(x));
        }
    }
    lemma_somes_ordered(left, members);
    assert forall|x: Seq<char>| #[trigger]
        ordered_list_of(members).contains(x) <==> asked.contains(x) && !met.contains(x) by {
        assert(members.contains(x) <==> asked.to_set().contains(x) && !met.to_set().contains(x));
    }
}

} // verus!
