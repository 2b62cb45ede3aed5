//! Putting the fields of placed symbols back where their library wants them.

use crate::library_refresh::{at_node, missing_references, not_among, set_property_at, with_at};
use crate::sexp::{nodes, Sexp, SexpNode};
use crate::text::{concat3, contains_text, ordered_list_of, text_eq, texts};
use vstd::prelude::*;
use vstd::string::*;

verus! {

/// Where a field belongs, with the numbers as they are written.
#[derive(PartialEq, Eq, Debug)]
pub struct FieldTarget {
    pub x: String,
    pub y: String,
    pub rotation: String,
}

/// A property of a placed symbol, with the nodes that it has besides its name
/// and its value.
#[derive(PartialEq, Eq, Debug)]
pub struct ResetProperty {
    pub name: String,
    pub nodes: Vec<SexpNode>,
}

/// A placed symbol, with the places that its library anchors give to its
/// reference and to its value.
#[derive(PartialEq, Eq, Debug)]
pub struct ResetSymbol {
    pub reference: Option<String>,
    pub reference_target: Option<FieldTarget>,
    pub value_target: Option<FieldTarget>,
    pub properties: Vec<ResetProperty>,
}

/// What became of a field.
#[derive(Clone, Copy, PartialEq, Eq, Debug, Structural)]
pub enum FieldReset {
    /// The library gives the field no place.
    NoAnchor,
    /// The symbol has no such property.
    NoProperty,
    Moved,
    Unchanged,
}

/// What became of the fields, each named by its reference and its field.
#[derive(PartialEq, Eq, Debug)]
pub struct ResetReport {
    pub moved: Vec<String>,
    pub unchanged: Vec<String>,
    pub no_anchor: Vec<String>,
    pub no_property: Vec<String>,
    pub not_found: Vec<String>,
}

/// The content of a [`ResetProperty`].
pub struct PropertyModel {
    pub name: Seq<char>,
    pub nodes: Seq<Sexp>,
}

/// The contents of a list of properties.
pub open spec fn models(list: Seq<ResetProperty>) -> Seq<PropertyModel> {
    Seq::new(
        list.len(),
        |i: int| PropertyModel { name: list[i].name@, nodes: nodes(list[i].nodes@) },
    )
}

/// The placement node of a target.
pub open spec fn target_node(target: FieldTarget) -> Sexp {
    at_node(target.x@, target.y@, target.rotation@)
}

/// The position of the first of the first `n` properties with this name.
pub open spec fn first_named(list: Seq<PropertyModel>, name: Seq<char>, n: nat) -> Option<int>
    decreases n,
{
    if n == 0 {
        None
    } else {
        match first_named(list, name, (n - 1) as nat) {
            Some(i) => Some(i),
            None => if list[n - 1].name == name {
                Some(n - 1)
            } else {
                None
            },
        }
    }
}

/// The properties with one field put in its place, and what became of it.
pub open spec fn with_field(
    list: Seq<PropertyModel>,
    name: Seq<char>,
    target: Option<FieldTarget>,
) -> (Seq<PropertyModel>, FieldReset) {
    match target {
        None => (list, FieldReset::NoAnchor),
        Some(place) => match first_named(list, name, list.len()) {
            None => (list, FieldReset::NoProperty),
            Some(i) => {
                let set = with_at(list[i].nodes, target_node(place));
                (
                    list.update(i, PropertyModel { name: list[i].name, nodes: set.0 }),
                    if set.1 {
                        FieldReset::Moved
                    } else {
                        FieldReset::Unchanged
                    },
                )
            },
        },
    }
}

/// The symbol is one of those that were asked for.
pub open spec fn to_reset(symbol: ResetSymbol, only: Option<Vec<String>>) -> bool {
    match symbol.reference {
        Some(reference) => match only {
            Some(list) => texts(list@).contains(reference@),
            None => true,
        },
        None => false,
    }
}

/// What becomes of the reference of a symbol, and its properties after that.
pub open spec fn after_reference(symbol: ResetSymbol) -> (Seq<PropertyModel>, FieldReset) {
    with_field(models(symbol.properties@), "Reference"@, symbol.reference_target)
}

/// What becomes of the value of a symbol, and its properties after both fields.
pub open spec fn after_value(symbol: ResetSymbol) -> (Seq<PropertyModel>, FieldReset) {
    with_field(after_reference(symbol).0, "Value"@, symbol.value_target)
}

/// The properties of a symbol after the reset.
pub open spec fn reset_properties(symbol: ResetSymbol, only: Option<Vec<String>>) -> Seq<
    PropertyModel,
> {
    if to_reset(symbol, only) {
        after_value(symbol).0
    } else {
        models(symbol.properties@)
    }
}

/// The symbol is what the reset makes of the other one.
pub open spec fn is_reset(
    after: ResetSymbol,
    before: ResetSymbol,
    only: Option<Vec<String>>,
) -> bool {
    &&& after.reference == before.reference
    &&& after.reference_target == before.reference_target
    &&& after.value_target == before.value_target
    &&& models(after.properties@) == reset_properties(before, only)
}

/// The reference of a symbol; one without a reference has the empty one.
pub open spec fn reference_text(symbol: ResetSymbol) -> Seq<char> {
    match symbol.reference {
        Some(reference) => reference@,
        None => Seq::empty(),
    }
}

/// The list with an entry added when the field had this outcome.
pub open spec fn noted(
    list: Seq<Seq<char>>,
    reference: Seq<char>,
    name: Seq<char>,
    outcome: FieldReset,
    wanted: FieldReset,
) -> Seq<Seq<char>> {
    if outcome == wanted {
        list.push(reference + "."@ + name)
    } else {
        list
    }
}

/// The fields of the first `n` symbols of which this became.
pub open spec fn fields_that(
    symbols: Seq<ResetSymbol>,
    only: Option<Vec<String>>,
    wanted: FieldReset,
    n: nat,
) -> Seq<Seq<char>>
    decreases n,
{
    if n == 0 {
        Seq::empty()
    } else {
        let rest = fields_that(symbols, only, wanted, (n - 1) as nat);
        let symbol = symbols[n - 1];
        if to_reset(symbol, only) {
            let own = reference_text(symbol);
            noted(
                noted(rest, own, "Reference"@, after_reference(symbol).1, wanted),
                own,
                "Value"@,
                after_value(symbol).1,
                wanted,
            )
        } else {
            rest
        }
    }
}

/// The references of the first `n` symbols that were asked for.
pub open spec fn references_met(
    symbols: Seq<ResetSymbol>,
    only: Option<Vec<String>>,
    n: nat,
) -> Seq<Seq<char>>
    decreases n,
{
    if n == 0 {
        Seq::empty()
    } else {
        let rest = references_met(symbols, only, (n - 1) as nat);
        if to_reset(symbols[n - 1], only) {
            rest.push(reference_text(symbols[n - 1]))
        } else {
            rest
        }
    }
}

/// The references that were asked for, if any were named.
pub open spec fn asked_for(only: Option<Vec<String>>) -> Seq<Seq<char>> {
    match only {
        Some(list) => texts(list@),
        None => Seq::empty(),
    }
}

/// What the report says.
pub open spec fn reports(
    report: ResetReport,
    symbols: Seq<ResetSymbol>,
    only: Option<Vec<String>>,
    n: nat,
) -> bool {
    &&& texts(report.moved@) == fields_that(symbols, only, FieldReset::Moved, n)
    &&& texts(report.unchanged@) == fields_that(symbols, only, FieldReset::Unchanged, n)
    &&& texts(report.no_anchor@) == fields_that(symbols, only, FieldReset::NoAnchor, n)
    &&& texts(report.no_property@) == fields_that(symbols, only, FieldReset::NoProperty, n)
}

proof fn lemma_named_stays(list: Seq<PropertyModel>, name: Seq<char>, n: nat)
    requires
        n <= list.len(),
        first_named(list, name, n) is Some,
    ensures
        first_named(list, name, list.len()) == first_named(list, name, n),
    decreases list.len() - n,
{
    if n < list.len() {
        lemma_named_stays(list, name, n + 1);
    }
}

/// Puts one field of a symbol in its place.
pub fn reset_field(
    properties: &mut Vec<ResetProperty>,
    name: &str,
    target: &Option<FieldTarget>,
) -> (res: FieldReset)
    ensures
        (models(final(properties)@), res) == with_field(models(old(properties)@), name@, *target),
{
    let ghost before = models(properties@);
    match target {
        None => FieldReset::NoAnchor,
        Some(place) => {
            let mut i: usize = 0;
            while i < properties.len()
                invariant
                    i <= properties@.len(),
                    before == models(properties@),
                    before == models(old(properties)@),
                    first_named(before, name@, i as nat) is None,
                    *target == Some(*place),
                decreases properties@.len() - i,
            {
                assert(before[i as int].name == properties@[i as int].name@);
                if text_eq(properties[i].name.as_str(), name) {
                    proof {
                        lemma_named_stays(before, name@, (i + 1) as nat);
                    }
                    let moved = set_property_at(
                        &mut properties[i].nodes,
                        place.x.as_str(),
                        place.y.as_str(),
                        place.rotation.as_str(),
                    );
                    assert(models(properties@) =~= with_field(before, name@, *target).0);
                    return if moved {
                        FieldReset::Moved
                    } else {
                        FieldReset::Unchanged
                    };
                }
                i += 1;
            }
            FieldReset::NoProperty
        },
    }
}

impl ResetReport {
    /// Notes what became of a field.
    fn note(&mut self, reference: &str, name: &str, outcome: FieldReset)
        ensures
            texts(final(self).moved@) == noted(
                texts(old(self).moved@),
                reference@,
                name@,
                outcome,
                FieldReset::Moved,
            ),
            texts(final(self).unchanged@) == noted(
                texts(old(self).unchanged@),
                reference@,
                name@,
                outcome,
                FieldReset::Unchanged,
            ),
            texts(final(self).no_anchor@) == noted(
                texts(old(self).no_anchor@),
                reference@,
                name@,
                outcome,
                FieldReset::NoAnchor,
            ),
            texts(final(self).no_property@) == noted(
                texts(old(self).no_property@),
                reference@,
                name@,
                outcome,
                FieldReset::NoProperty,
            ),
            final(self).not_found == old(self).not_found,
    {
        let entry = concat3(reference, ".", name);
        let ghost text = entry@;
        match outcome {
            FieldReset::Moved => {
                self.moved.push(entry);
                assert(texts(self.moved@) =~= texts(old(self).moved@).push(text));
            },
            FieldReset::Unchanged => {
                self.unchanged.push(entry);
                assert(texts(self.unchanged@) =~= texts(old(self).unchanged@).push(text));
            },
            FieldReset::NoAnchor => {
                self.no_anchor.push(entry);
                assert(texts(self.no_anchor@) =~= texts(old(self).no_anchor@).push(text));
            },
            FieldReset::NoProperty => {
                self.no_property.push(entry);
                assert(texts(self.no_property@) =~= texts(old(self).no_property@).push(text));
            },
        }
    }
}

/// Puts the reference and the value of each symbol that was asked for where its
/// library wants them, and reports every field that was not skipped.
pub fn reset_fields(symbols: &mut Vec<ResetSymbol>, only: &Option<Vec<String>>) -> (res:
    ResetReport)
    ensures
        final(symbols)@.len() == old(symbols)@.len(),
        forall|i: int|
            0 <= i < old(symbols)@.len() ==> is_reset(
                #[trigger] (final(symbols)@[i]),
                old(symbols)@[i],
                *only,
            ),
        reports(res, old(symbols)@, *only, old(symbols)@.len()),
        texts(res.not_found@) == ordered_list_of(
            not_among(
                asked_for(*only),
                references_met(old(symbols)@, *only, old(symbols)@.len()),
            ),
        ),
{
    let ghost before = symbols@;
    let mut report = ResetReport {
        moved: Vec::new(),
        unchanged: Vec::new(),
        no_anchor: Vec::new(),
        no_property: Vec::new(),
        not_found: Vec::new(),
    };
    let mut met: Vec<String> = Vec::new();
    assert(texts(met@) =~= Seq::<Seq<char>>::empty());
    assert(texts(report.moved@) =~= Seq::<Seq<char>>::empty());
    assert(texts(report.unchanged@) =~= Seq::<Seq<char>>::empty());
    assert(texts(report.no_anchor@) =~= Seq::<Seq<char>>::empty());
    assert(texts(report.no_property@) =~= Seq::<Seq<char>>::empty());
    let mut i: usize = 0;
    while i < symbols.len()
        invariant
            i <= symbols@.len(),
            symbols@.len() == before.len(),
            before == old(symbols)@,
            forall|j: int| 0 <= j < i ==> is_reset(#[trigger] symbols@[j], before[j], *only),
            forall|j: int| i <= j < before.len() ==> #[trigger] symbols@[j] == before[j],
            reports(report, before, *only, i as nat),
            texts(met@) == references_met(before, *only, i as nat),
        decreases symbols@.len() - i,
    {
        let ghost symbol = before[i as int];
        let reference = match &symbols[i].reference {
            Some(reference) => {
                let asked = match only {
                    Some(list) => contains_text(list, reference.as_str()),
                    None => true,
                };
                if asked {
                    Some(reference.clone())
                } else {
                    None
                }
            },
            None => None,
        };
        assert(reference is Some == to_reset(symbol, *only));
        if let Some(reference) = reference {
            let first = reset_one(&mut symbols[i], true);
            report.note(reference.as_str(), "Reference", first);
            let second = reset_one(&mut symbols[i], false);
            report.note(reference.as_str(), "Value", second);
            let ghost known = texts(met@);
            let ghost own = reference@;
            met.push(reference);
            assert(texts(met@) =~= known.push(own));
        }
        assert(is_reset(symbols@[i as int], before[i as int], *only));
        i += 1;
    }
    report.not_found =
    match only {
        Some(list) => missing_references(list, &met),
        None => {
            let none: Vec<String> = Vec::new();
            assert(texts(none@) =~= Seq::<Seq<char>>::empty());
            missing_references(&none, &met)
        },
    };
    report
}

/// Puts the reference or the value of a symbol in its place.
fn reset_one(symbol: &mut ResetSymbol, reference: bool) -> (res: FieldReset)
    ensures
        final(symbol).reference == old(symbol).reference,
        final(symbol).reference_target == old(symbol).reference_target,
        final(symbol).value_target == old(symbol).value_target,
        (models(final(symbol).properties@), res) == (if reference {
            after_reference(*old(symbol))
        } else {
            with_field(models(old(symbol).properties@), "Value"@, old(symbol).value_target)
        }),
{
    if reference {
        reset_field(&mut symbol.properties, "Reference", &symbol.reference_target)
    } else {
        reset_field(&mut symbol.properties, "Value", &symbol.value_target)
    }
}

/// A field that was put in its place stays there: doing it again finds it
/// unchanged.
pub proof fn law_a_reset_field_stays(
    list: Seq<PropertyModel>,
    name: Seq<char>,
    target: FieldTarget,
)
    requires
        first_named(list, name, list.len()) is Some,
    ensures
        ({
            let once = with_field(list, name, Some(target)).0;
            with_field(once, name, Some(target)) == (once, FieldReset::Unchanged)
        }),
{
    let once = with_field(list, name, Some(target)).0;
    lemma_named_range(list, name, list.len());
    let i = first_named(list, name, list.len())->0;
    lemma_same_names(list, once, name, list.len());
    let at = target_node(target);
    assert(at.items()[0] == Sexp::Atom("at"@));
    assert(at.tagged("at"@));
    crate::library_refresh::law_setting_a_place_twice_changes_nothing(list[i].nodes, at);
    assert(once.update(i, once[i]) =~= once);
}

/// A second reset moves nothing: what the first one leaves is in place.
pub proof fn law_a_second_reset_moves_nothing(
    before: Seq<ResetSymbol>,
    after: Seq<ResetSymbol>,
    only: Option<Vec<String>>,
)
    requires
        before.len() == after.len(),
        forall|i: int| 0 <= i < before.len() ==> is_reset(#[trigger] after[i], before[i], only),
    ensures
        fields_that(after, only, FieldReset::Moved, after.len()).len() == 0,
        forall|i: int|
            0 <= i < after.len() ==> reset_properties(#[trigger] after[i], only) == models(
                after[i].properties@,
            ),
{
    assert forall|i: int| 0 <= i < after.len() implies reset_properties(
        #[trigger] after[i],
        only,
    ) == models(after[i].properties@) by {
        lemma_reset_twice(before[i], after[i], only);
    }
    lemma_nothing_moves(before, after, only, after.len());
}

proof fn lemma_nothing_moves(
    before: Seq<ResetSymbol>,
    after: Seq<ResetSymbol>,
    only: Option<Vec<String>>,
    n: nat,
)
    requires
        n <= after.len(),
        before.len() == after.len(),
        forall|i: int| 0 <= i < before.len() ==> is_reset(#[trigger] after[i], before[i], only),
    ensures
        fields_that(after, only, FieldReset::Moved, n).len() == 0,
    decreases n,
{
    if n > 0 {
        lemma_nothing_moves(before, after, only, (n - 1) as nat);
        assert(is_reset(after[n - 1], before[n - 1], only));
        lemma_reset_twice(before[n - 1], after[n - 1], only);
    }
}

proof fn lemma_reset_twice(before: ResetSymbol, after: ResetSymbol, only: Option<Vec<String>>)
    requires
        is_reset(after, before, only),
    ensures
        to_reset(after, only) ==> after_reference(after).1 != FieldReset::Moved && after_value(
            after,
        ).1 != FieldReset::Moved,
        reset_properties(after, only) == models(after.properties@),
{
    if to_reset(after, only) {
        let start = models(before.properties@);
        let middle = after_reference(before).0;
        let last = after_value(before).0;
        reveal_strlit("Reference");
        reveal_strlit("Value");
        assert("Reference"@.len() != "Value"@.len());
        lemma_with_field(start, "Reference"@, before.reference_target);
        lemma_with_field(middle, "Value"@, before.value_target);
        lemma_same_names(middle, last, "Reference"@, middle.len());
        lemma_same_names(middle, last, "Value"@, middle.len());
        lemma_named_range(middle, "Reference"@, middle.len());
        lemma_named_range(middle, "Value"@, middle.len());
        match before.reference_target {
            Some(place) => {
                match first_named(last, "Reference"@, last.len()) {
                    Some(i) => {
                        assert(last[i] == middle[i]);
                        let set = with_at(middle[i].nodes, target_node(place));
                        assert(middle.update(i, middle[i]) =~= middle);
                        assert(with_field(middle, "Reference"@, Some(place)).0[i].nodes
                            == middle[i].nodes);
                        assert(last.update(i, last[i]) =~= last);
                        assert(after_reference(after) == (last, FieldReset::Unchanged));
                    },
                    None => {},
                }
            },
            None => {},
        }
        assert(after_reference(after).0 == last);
    }
}

/// The names stay, and a second time changes nothing.
proof fn lemma_with_field(list: Seq<PropertyModel>, name: Seq<char>, target: Option<FieldTarget>)
    ensures
        ({
            let once = with_field(list, name, target).0;
            &&& once.len() == list.len()
            &&& forall|j: int| 0 <= j < list.len() ==> (#[trigger] list[j]).name == once[j].name
            &&& forall|j: int|
                0 <= j < list.len() && list[j].name != name ==> #[trigger] once[j] == list[j]
            &&& with_field(once, name, target).0 == once
            &&& with_field(once, name, target).1 != FieldReset::Moved
        }),
{
    let once = with_field(list, name, target).0;
    lemma_named_range(list, name, list.len());
    match target {
        Some(place) => {
            if first_named(list, name, list.len()) is Some {
                law_a_reset_field_stays(list, name, place);
            }
        },
        None => {},
    }
}

proof fn lemma_named_range(list: Seq<PropertyModel>, name: Seq<char>, n: nat)
    requires
        n <= list.len(),
    ensures
        first_named(list, name, n) matches Some(i) ==> 0 <= i < n && list[i].name == name,
    decreases n,
{
    if n > 0 {
        lemma_named_range(list, name, (n - 1) as nat);
    }
}

proof fn lemma_same_names(
    a: Seq<PropertyModel>,
    b: Seq<PropertyModel>,
    name: Seq<char>,
    n: nat,
)
    requires
        n <= a.len(),
        a.len() == b.len(),
        forall|j: int| 0 <= j < a.len() ==> (#[trigger] a[j]).name == b[j].name,
    ensures
        first_named(a, name, n) == first_named(b, name, n),
    decreases n,
{
    if n > 0 {
        lemma_same_names(a, b, name, (n - 1) as nat);
        assert(a[n - 1].name == b[n - 1].name);
    }
}

/// The file is written when a field moved and this is no dry run.
pub fn reset_writes(report: &ResetReport, dry_run: bool) -> (res: bool)
    ensures
        res == (report.moved@.len() > 0 && !dry_run),
{
    report.moved.len() > 0 && !dry_run
}

} // verus!
