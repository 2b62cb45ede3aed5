//! The decisions of a request that edits components.
//!
//! A session is told what came of each step and decides what is reported,
//! whether the next step is taken, and whether anything is committed at all.

use crate::decimal::{number_text, write_number};
use crate::deletion::stale;
use crate::field_placement::{refusal_view, PlacementRefusal};
use crate::intent::FieldPlacement;
use crate::netlist::texts_of;
use crate::property_edit::{find_text, PropertyWriteCounts};
use crate::property_text::is_reserved_property;
use crate::scan::first_in;
use crate::text::{concat2, concat3, concat5, join, joined, owned, text_eq, texts};
use crate::text_map::{clone_texts, TextMap};
use crate::tool_error::{
    invalid_argument, ComponentDeleteTargetError, ErrorView, KindView, TargetFault, ToolError,
};
use vstd::prelude::*;
use vstd::string::*;
use vstd::utf8::*;

verus! {

/// What came of a request to edit a component so far.
#[derive(PartialEq, Eq, Debug)]
pub struct EditSession {
    pub reference: String,
    pub edit_reference: String,
    pub unit_count: usize,
    pub changed: Vec<String>,
    pub errors: Vec<String>,
    pub expected_fields: TextMap<String>,
    pub placements: Vec<(String, FieldPlacement)>,
    pub placement_unit: Option<u32>,
}

/// The content of a session.
pub struct SessionView {
    pub edit_reference: Seq<char>,
    pub changed: Seq<Seq<char>>,
    pub errors: Seq<Seq<char>>,
    pub expected_fields: Map<Seq<char>, Seq<char>>,
    pub placements: Seq<(Seq<char>, FieldPlacement)>,
    pub placement_unit: Option<u32>,
}

/// The contents of a list of placements.
pub open spec fn placement_views(list: Seq<(String, FieldPlacement)>) -> Seq<
    (Seq<char>, FieldPlacement),
> {
    Seq::new(list.len(), |i: int| (list[i].0@, list[i].1))
}

/// The number of a placement's part as it was given.
#[derive(Clone, Copy, PartialEq, Eq, Debug, Structural)]
pub enum NumberArgument {
    Absent,
    Number(i64),
    Other,
}

/// The flag of a placement as it was given.
#[derive(Clone, Copy, PartialEq, Eq, Debug, Structural)]
pub enum FlagArgument {
    Absent,
    Flag(bool),
    Other,
}

/// A placement as it was given.
#[derive(Clone, Copy, PartialEq, Eq, Debug, Structural)]
pub enum PlacementArgument {
    NotAnObject,
    Object { x: NumberArgument, y: NumberArgument, rotation: NumberArgument, hide: FlagArgument },
}

/// What is said of a property that was set.
pub open spec fn set_text(field: Seq<char>, value: Seq<char>, updated: nat) -> Seq<char> {
    field + " → "@ + value + " ("@ + number_text(updated) + " unit(s))"@
}

/// What is said of a custom field that was set.
pub open spec fn custom_text(
    name: Seq<char>,
    value: Seq<char>,
    updated: nat,
    added: nat,
) -> Seq<char> {
    name + " → "@ + value + " ("@ + number_text(updated) + " updated, "@ + number_text(added)
        + " added)"@
}

/// An error about something.
pub open spec fn error_text(name: Seq<char>, why: Seq<char>) -> Seq<char> {
    name + ": "@ + why
}

/// The session after a property was set, or was not.
pub open spec fn after_property(
    before: SessionView,
    field: Seq<char>,
    value: Seq<char>,
    outcome: Result<PropertyWriteCounts, String>,
) -> SessionView {
    match outcome {
        Ok(counts) => SessionView {
            changed: before.changed.push(set_text(field, value, counts.updated as nat)),
            expected_fields: before.expected_fields.insert(field, value),
            ..before
        },
        Err(why) => SessionView {
            errors: before.errors.push(error_text(field, why@)),
            ..before
        },
    }
}

/// The session after a rename. The reference stands in two places, the
/// property and the instance paths; where the second could not be rewritten,
/// the first counts for nothing.
pub open spec fn after_rename(
    before: SessionView,
    new_reference: Seq<char>,
    property: Result<PropertyWriteCounts, String>,
    instances: Result<usize, String>,
) -> SessionView {
    let middle = after_property(before, "Reference"@, new_reference, property);
    match instances {
        Ok(count) => SessionView {
            edit_reference: new_reference,
            changed: middle.changed.push(
                "instances reference → "@ + new_reference + " ("@ + number_text(count as nat)
                    + ")"@,
            ),
            ..middle
        },
        Err(why) => SessionView {
            changed: before.changed,
            expected_fields: before.expected_fields,
            errors: middle.errors.push(error_text("instances reference"@, why@)),
            ..middle
        },
    }
}

/// The parameter that a reserved property has.
pub open spec fn parameter_of(name: Seq<char>) -> Seq<char> {
    if name == "Reference"@ {
        "reference"@
    } else if name == "Value"@ {
        "value"@
    } else if name == "Footprint"@ {
        "footprint"@
    } else {
        "datasheet"@
    }
}

/// The property has a parameter of its own.
pub open spec fn is_reserved(name: Seq<char>) -> bool {
    name == "Reference"@ || name == "Value"@ || name == "Footprint"@ || name == "Datasheet"@
}

/// Why a custom field is not set, if it is not.
pub open spec fn custom_refusal(name: Seq<char>, is_text: bool) -> Option<Seq<char>> {
    if !is_text {
        Some(error_text(name, "field values must be strings"@))
    } else if is_reserved(name) {
        Some(
            name + ": set this through the '"@ + parameter_of(name) + "' parameter, not 'fields'"@,
        )
    } else {
        None
    }
}

/// The number, where there is one.
pub open spec fn number_of(argument: NumberArgument) -> Option<i64> {
    match argument {
        NumberArgument::Number(value) => Some(value),
        _ => None,
    }
}

/// The errors of one part of a placement.
pub open spec fn number_errors(name: Seq<char>, key: Seq<char>, argument: NumberArgument) -> Seq<
    Seq<char>,
> {
    if argument == NumberArgument::Other {
        seq![name + "."@ + key + ": expected a number"@]
    } else {
        Seq::empty()
    }
}

/// The errors of the parts of a placement.
pub open spec fn part_errors(
    name: Seq<char>,
    x: NumberArgument,
    y: NumberArgument,
    rotation: NumberArgument,
    hide: FlagArgument,
) -> Seq<Seq<char>> {
    number_errors(name, "x"@, x) + number_errors(name, "y"@, y) + number_errors(
        name,
        "rotation"@,
        rotation,
    ) + (if hide == FlagArgument::Other {
        seq![name + ".hide: expected true or false"@]
    } else {
        Seq::empty()
    })
}

/// The placement that the parts give.
pub open spec fn placement_of(
    x: NumberArgument,
    y: NumberArgument,
    rotation: NumberArgument,
    hide: FlagArgument,
) -> FieldPlacement {
    FieldPlacement {
        x: number_of(x),
        y: number_of(y),
        rotation: number_of(rotation),
        hide: match hide {
            FlagArgument::Flag(flag) => Some(flag),
            _ => None,
        },
    }
}

/// The placement that was asked for, or the errors that stand against it.
pub open spec fn checked_placement(
    reference: Seq<char>,
    unit_count: nat,
    name: Seq<char>,
    argument: PlacementArgument,
    only_unit: Option<u32>,
) -> Result<FieldPlacement, Seq<Seq<char>>> {
    match argument {
        PlacementArgument::NotAnObject => Err(
            seq![error_text(name, "field_placements entries must be objects"@)],
        ),
        PlacementArgument::Object { x, y, rotation, hide } => {
            let errors = part_errors(name, x, y, rotation, hide);
            let placement = placement_of(x, y, rotation, hide);
            if errors.len() > 0 {
                Err(errors)
            } else if placement.x is None && placement.y is None && placement.rotation is None
                && placement.hide is None {
                Err(
                    seq![
                        error_text(
                            name,
                            "field_placements entry sets nothing — give x, y, rotation or hide"@,
                        ),
                    ],
                )
            } else if (placement.x is Some || placement.y is Some) && only_unit is None
                && unit_count > 1 {
                Err(
                    seq![
                        name + ": '"@ + reference + "' has "@ + number_text(unit_count)
                            + " placed units, so a field position needs 'unit' — an absolute coordinate cannot be right for all of them"@,
                    ],
                )
            } else {
                Ok(placement)
            }
        },
    }
}

/// What is said of an edit that did nothing.
pub open spec fn nothing_updated(reference: Seq<char>) -> Seq<char> {
    "No fields were updated on '"@ + reference + "'"@
}

/// What becomes of a request once every step was taken.
#[derive(PartialEq, Eq, Debug)]
pub enum EditDecision {
    /// It is refused, and nothing is written.
    Refuse { message: String },
    /// The edited text is committed.
    Commit,
    /// Nothing was asked for: the component is only read.
    ReadOnly,
}

impl EditSession {
    /// The content of the session.
    pub open spec fn view(self) -> SessionView {
        SessionView {
            edit_reference: self.edit_reference@,
            changed: texts(self.changed@),
            errors: texts(self.errors@),
            expected_fields: texts_of(self.expected_fields@),
            placements: placement_views(self.placements@),
            placement_unit: self.placement_unit,
        }
    }

    /// What no step changes.
    pub open spec fn same_request(self, other: EditSession) -> bool {
        self.reference@ == other.reference@ && self.unit_count == other.unit_count
    }

    /// A request about a component with so many placed units.
    pub fn new(reference: &str, unit_count: usize) -> (res: EditSession)
        ensures
            res.reference@ == reference@,
            res.unit_count == unit_count,
            res@ == (SessionView {
                edit_reference: reference@,
                changed: Seq::empty(),
                errors: Seq::empty(),
                expected_fields: Map::empty(),
                placements: Seq::empty(),
                placement_unit: None,
            }),
    {
        let res = EditSession {
            reference: owned(reference),
            edit_reference: owned(reference),
            unit_count,
            changed: Vec::new(),
            errors: Vec::new(),
            expected_fields: TextMap::new(),
            placements: Vec::new(),
            placement_unit: None,
        };
        assert(res@.changed =~= Seq::empty());
        assert(res@.errors =~= Seq::empty());
        assert(res@.expected_fields =~= Map::empty());
        assert(res@.placements =~= Seq::empty());
        res
    }

    fn add_change(&mut self, text: String)
        ensures
            final(self)@ == (SessionView { changed: old(self)@.changed.push(text@), ..old(self)@ }),
            final(self).same_request(*old(self)),
    {
        let ghost before = self@;
        self.changed.push(text);
        assert(self@.changed =~= before.changed.push(text@));
    }

    fn add_error(&mut self, text: String)
        ensures
            final(self)@ == (SessionView { errors: old(self)@.errors.push(text@), ..old(self)@ }),
            final(self).same_request(*old(self)),
    {
        let ghost before = self@;
        self.errors.push(text);
        assert(self@.errors =~= before.errors.push(text@));
    }

    fn expect_field(&mut self, field: &str, value: &str)
        ensures
            final(self)@ == (SessionView {
                expected_fields: old(self)@.expected_fields.insert(field@, value@),
                ..old(self)@
            }),
            final(self).same_request(*old(self)),
    {
        let ghost before = self@;
        self.expected_fields.insert(owned(field), owned(value));
        assert(self@.expected_fields =~= before.expected_fields.insert(field@, value@));
    }

    /// Takes in what came of setting a built-in property.
    pub fn property_set(
        &mut self,
        field: &str,
        value: &str,
        outcome: &Result<PropertyWriteCounts, String>,
    )
        ensures
            final(self)@ == after_property(old(self)@, field@, value@, *outcome),
            final(self).same_request(*old(self)),
    {
        match outcome {
            Ok(counts) => {
                self.expect_field(field, value);
                let mut text = concat5(
                    field,
                    " → ",
                    value,
                    " (",
                    write_number(counts.updated).as_str(),
                );
                text.append(" unit(s))");
                self.add_change(text);
            },
            Err(why) => {
                self.add_error(concat3(field, ": ", why.as_str()));
            },
        }
    }

    /// Takes in what came of a rename: of the property, and of the instance
    /// paths. Tells whether the rename stands; otherwise the text is to be put
    /// back as it was.
    pub fn renamed(
        &mut self,
        new_reference: &str,
        property: &Result<PropertyWriteCounts, String>,
        instances: &Result<usize, String>,
    ) -> (res: bool)
        ensures
            final(self)@ == after_rename(old(self)@, new_reference@, *property, *instances),
            res == instances is Ok,
            final(self).same_request(*old(self)),
    {
        let ghost start = self@;
        let before_changes: usize = self.changed.len();
        let before_fields = clone_texts(&self.expected_fields);
        self.property_set("Reference", new_reference, property);
        let ghost middle = self@;
        match instances {
            Ok(count) => {
                self.edit_reference = owned(new_reference);
                let text = concat5(
                    "instances reference → ",
                    new_reference,
                    " (",
                    write_number(*count).as_str(),
                    ")",
                );
                self.add_change(text);
                true
            },
            Err(why) => {
                let ghost kept = self.changed@;
                self.changed.truncate(before_changes);
                self.expected_fields = before_fields;
                proof {
                    assert(start.changed.len() == before_changes);
                    assert(middle.changed == texts(kept));
                    assert(texts(kept).len() == kept.len());
                    assert forall|i: int| 0 <= i < before_changes implies self@.changed[i]
                        == start.changed[i] by {
                        assert(self.changed@[i] == kept[i]);
                        assert(texts(kept)[i] == start.changed[i]);
                    }
                    assert(self@.changed =~= start.changed);
                }
                self.add_error(concat3("instances reference", ": ", why.as_str()));
                false
            },
        }
    }

    /// Decides whether a custom field may be set; a refusal is noted.
    pub fn accepts_custom_field(&mut self, name: &str, is_text: bool) -> (res: bool)
        ensures
            match custom_refusal(name@, is_text) {
                Some(error) => !res && final(self)@ == (SessionView {
                    errors: old(self)@.errors.push(error),
                    ..old(self)@
                }),
                None => res && final(self)@ == old(self)@,
            },
            final(self).same_request(*old(self)),
    {
        if !is_text {
            self.add_error(concat3(name, ": ", "field values must be strings"));
            return false;
        }
        if is_reserved_property(name) {
            let parameter = if text_eq(name, "Reference") {
                "reference"
            } else if text_eq(name, "Value") {
                "value"
            } else if text_eq(name, "Footprint") {
                "footprint"
            } else {
                "datasheet"
            };
            let mut text = concat3(name, ": set this through the '", parameter);
            text.append("' parameter, not 'fields'");
            self.add_error(text);
            return false;
        }
        true
    }

    /// Takes in what came of setting a custom field.
    pub fn custom_field_set(
        &mut self,
        name: &str,
        value: &str,
        outcome: &Result<PropertyWriteCounts, String>,
    )
        ensures
            final(self)@ == (match outcome {
                Ok(counts) => SessionView {
                    changed: old(self)@.changed.push(
                        custom_text(name@, value@, counts.updated as nat, counts.added as nat),
                    ),
                    expected_fields: old(self)@.expected_fields.insert(name@, value@),
                    ..old(self)@
                },
                Err(why) => SessionView {
                    errors: old(self)@.errors.push(error_text(name@, why@)),
                    ..old(self)@
                },
            }),
            final(self).same_request(*old(self)),
    {
        match outcome {
            Ok(counts) => {
                self.expect_field(name, value);
                let mut text = concat5(
                    name,
                    " → ",
                    value,
                    " (",
                    write_number(counts.updated).as_str(),
                );
                text.append(" updated, ");
                text.append(write_number(counts.added).as_str());
                text.append(" added)");
                self.add_change(text);
            },
            Err(why) => {
                self.add_error(concat3(name, ": ", why.as_str()));
            },
        }
    }

    fn note_number(&mut self, name: &str, key: &str, argument: NumberArgument)
        ensures
            final(self)@ == (SessionView {
                errors: old(self)@.errors + number_errors(name@, key@, argument),
                ..old(self)@
            }),
            final(self).same_request(*old(self)),
    {
        let ghost before = self@;
        if let NumberArgument::Other = argument {
            let mut text = concat3(name, ".", key);
            text.append(": expected a number");
            self.add_error(text);
        }
        assert(self@.errors =~= before.errors + number_errors(name@, key@, argument));
    }

    /// Decides which placement a field is given; what stands against it is
    /// noted. One coordinate cannot be right for several units, so a field is
    /// only moved on a unit that is named.
    pub fn accepts_placement(
        &mut self,
        name: &str,
        argument: PlacementArgument,
        only_unit: Option<u32>,
    ) -> (res: Option<FieldPlacement>)
        ensures
            match checked_placement(
                old(self).reference@,
                old(self).unit_count as nat,
                name@,
                argument,
                only_unit,
            ) {
                Ok(placement) => res == Some(placement) && final(self)@ == old(self)@,
                Err(errors) => res is None && final(self)@ == (SessionView {
                    errors: old(self)@.errors + errors,
                    ..old(self)@
                }),
            },
            final(self).same_request(*old(self)),
    {
        let ghost start = self@;
        let (x, y, rotation, hide) = match argument {
            PlacementArgument::NotAnObject => {
                self.add_error(concat3(name, ": ", "field_placements entries must be objects"));
                assert(self@.errors =~= start.errors + seq![
                    error_text(name@, "field_placements entries must be objects"@),
                ]);
                return None;
            },
            PlacementArgument::Object { x, y, rotation, hide } => (x, y, rotation, hide),
        };
        let before: usize = self.errors.len();
        self.note_number(name, "x", x);
        self.note_number(name, "y", y);
        self.note_number(name, "rotation", rotation);
        if let FlagArgument::Other = hide {
            self.add_error(concat2(name, ".hide: expected true or false"));
        }
        let ghost errors = part_errors(name@, x, y, rotation, hide);
        proof {
            assert(self@.errors =~= start.errors + errors);
            assert(start.errors.len() == before);
            assert(self@.errors.len() == self.errors@.len());
        }
        if self.errors.len() > before {
            return None;
        }
        assert(start.errors + errors =~= start.errors);
        let placement = FieldPlacement {
            x: match x {
                NumberArgument::Number(value) => Some(value),
                _ => None,
            },
            y: match y {
                NumberArgument::Number(value) => Some(value),
                _ => None,
            },
            rotation: match rotation {
                NumberArgument::Number(value) => Some(value),
                _ => None,
            },
            hide: match hide {
                FlagArgument::Flag(flag) => Some(flag),
                _ => None,
            },
        };
        if placement.is_empty() {
            self.add_error(
                concat3(
                    name,
                    ": ",
                    "field_placements entry sets nothing — give x, y, rotation or hide",
                ),
            );
            assert(self@.errors =~= start.errors + seq![
                error_text(
                    name@,
                    "field_placements entry sets nothing — give x, y, rotation or hide"@,
                ),
            ]);
            return None;
        }
        if placement.moves_the_text() && only_unit.is_none() && self.unit_count > 1 {
            let mut text = concat5(
                name,
                ": '",
                self.reference.as_str(),
                "' has ",
                write_number(self.unit_count).as_str(),
            );
            text.append(
                " placed units, so a field position needs 'unit' — an absolute coordinate cannot be right for all of them",
            );
            let ghost own = text@;
            self.add_error(text);
            assert(self@.errors =~= start.errors + seq![own]);
            return None;
        }
        Some(placement)
    }

    /// Takes in what came of moving a field. A malformed file ends the request
    /// with the message that is returned; anything else is noted.
    pub fn placement_set(
        &mut self,
        name: &str,
        placement: FieldPlacement,
        only_unit: Option<u32>,
        outcome: &Result<usize, PlacementRefusal>,
    ) -> (res: Option<String>)
        ensures
            match outcome {
                Ok(touched) => res is None && final(self)@ == (SessionView {
                    placements: old(self)@.placements.push((name@, placement)),
                    placement_unit: only_unit,
                    changed: old(self)@.changed.push(
                        name@ + " placement ("@ + number_text(*touched as nat) + " unit(s))"@,
                    ),
                    ..old(self)@
                }),
                Err(refusal) => if refusal_view(*refusal).malformed {
                    final(self)@ == old(self)@ && (res matches Some(message) && message@
                        == nothing_updated(old(self).reference@) + ": "@ + error_text(
                        name@,
                        refusal.why(),
                    ))
                } else {
                    res is None && final(self)@ == (SessionView {
                        errors: old(self)@.errors.push(error_text(name@, refusal.why())),
                        ..old(self)@
                    })
                },
            },
            final(self).same_request(*old(self)),
    {
        let ghost start = self@;
        match outcome {
            Ok(touched) => {
                self.placements.push((owned(name), placement));
                self.placement_unit = only_unit;
                assert(self@.placements =~= start.placements.push((name@, placement)));
                self.add_change(
                    concat5(
                        name,
                        " placement (",
                        write_number(*touched).as_str(),
                        " unit(s)",
                        ")",
                    ),
                );
                proof {
                    let head = name@ + " placement ("@ + number_text(*touched as nat);
                    reveal_strlit(" unit(s)");
                    reveal_strlit(")");
                    reveal_strlit(" unit(s))");
                    assert(" unit(s)"@ + ")"@ =~= " unit(s))"@);
                    assert(head + " unit(s)"@ + ")"@ =~= head + " unit(s))"@);
                }
                None
            },
            Err(PlacementRefusal::MalformedFile(reason)) => {
                let mut message = concat3(
                    "No fields were updated on '",
                    self.reference.as_str(),
                    "'",
                );
                message.append(": ");
                let detail = concat3(name, ": ", reason.as_str());
                message.append(detail.as_str());
                Some(message)
            },
            Err(PlacementRefusal::TargetMissing(reason)) => {
                self.add_error(concat3(name, ": ", reason.as_str()));
                None
            },
        }
    }

    /// Decides what becomes of the request. One that changed nothing although
    /// it asked for something has failed. `asked` tells whether custom fields
    /// or placements were asked for.
    pub fn decide(&self, asked: bool) -> (res: EditDecision)
        ensures
            ({
                let changed = texts(self.changed@);
                let errors = texts(self.errors@);
                if changed.len() == 0 && asked && errors.len() == 0 {
                    res matches EditDecision::Refuse { message } && message@ == nothing_updated(
                        self.reference@,
                    )
                } else if changed.len() == 0 && errors.len() > 0 {
                    res matches EditDecision::Refuse { message } && message@ == nothing_updated(
                        self.reference@,
                    ) + ": "@ + joined(errors, "; "@)
                } else if changed.len() > 0 {
                    res is Commit
                } else {
                    res is ReadOnly
                }
            }),
    {
        assert(texts(self.changed@).len() == self.changed@.len());
        assert(texts(self.errors@).len() == self.errors@.len());
        if self.changed.len() == 0 && asked && self.errors.len() == 0 {
            return EditDecision::Refuse {
                message: concat3("No fields were updated on '", self.reference.as_str(), "'"),
            };
        }
        if self.changed.len() == 0 && self.errors.len() > 0 {
            let mut message = concat3("No fields were updated on '", self.reference.as_str(), "'");
            message.append(": ");
            message.append(join(&self.errors, "; ").as_str());
            return EditDecision::Refuse { message };
        }
        if self.changed.len() > 0 {
            EditDecision::Commit
        } else {
            EditDecision::ReadOnly
        }
    }
}

/// A rename that cannot reach the instance paths leaves neither a change nor an
/// expectation behind.
pub proof fn law_half_a_rename_counts_for_nothing(
    before: SessionView,
    new_reference: Seq<char>,
    property: Result<PropertyWriteCounts, String>,
    instances: Result<usize, String>,
)
    requires
        instances is Err,
    ensures
        after_rename(before, new_reference, property, instances).changed == before.changed,
        after_rename(before, new_reference, property, instances).expected_fields
            == before.expected_fields,
        after_rename(before, new_reference, property, instances).edit_reference
            == before.edit_reference,
        after_rename(before, new_reference, property, instances).errors.len()
            > before.errors.len(),
{
}

/// Why the unit that field positions are for is refused, if it is: units are
/// numbered from one.
pub fn refuse_placement_unit(unit: Option<u32>) -> (res: Option<ToolError>)
    ensures
        unit == Some(0u32) ==> (res matches Some(error) && error@ == (ErrorView {
            kind: Some(
                KindView::InvalidArgument {
                    field: "unit"@,
                    reason: "expected a positive integer unit number"@,
                },
            ),
            message: "Argument 'unit' is invalid: expected a positive integer unit number"@,
        })),
        unit != Some(0u32) ==> res is None,
{
    match unit {
        Some(0) => {
            proof {
                reveal_strlit("Argument '");
                reveal_strlit("unit");
                reveal_strlit("' is invalid: ");
                reveal_strlit("expected a positive integer unit number");
                reveal_strlit("Argument 'unit' is invalid: expected a positive integer unit number");
                assert("Argument '"@ + "unit"@ + "' is invalid: "@
                    + "expected a positive integer unit number"@
                    =~= "Argument 'unit' is invalid: expected a positive integer unit number"@);
            }
            Some(invalid_argument("unit", owned("expected a positive integer unit number")))
        },
        _ => None,
    }
}

/// Why a request to group this many references is refused, if it is.
pub fn refuse_group(count: usize) -> (res: Option<String>)
    ensures
        count == 0 ==> (res matches Some(refusal) && refusal@ == "No references provided"@),
        count > 0 ==> res is None,
{
    if count == 0 {
        Some(owned("No references provided"))
    } else {
        None
    }
}

/// Why an annotation is refused, if it is: a built-in field has a parameter of
/// its own, with its own side effects.
pub fn refuse_annotation(key: &str) -> (res: Option<ToolError>)
    ensures
        is_reserved(key@) ==> (res matches Some(error) && error@ == (ErrorView {
            kind: None,
            message: "'"@ + key@
                + "' is a built-in field — set it through edit_schematic_component's dedicated parameter, not as an annotation."@,
        })),
        !is_reserved(key@) ==> res is None,
{
    if is_reserved_property(key) {
        Some(
            ToolError {
                kind: None,
                message: concat3(
                    "'",
                    key,
                    "' is a built-in field — set it through edit_schematic_component's dedicated parameter, not as an annotation.",
                ),
            },
        )
    } else {
        None
    }
}

/// How many of the first `n` units have this field.
pub open spec fn units_with_field(
    units: Seq<crate::intent::ComponentTargetUnit>,
    key: Seq<char>,
    n: nat,
) -> nat
    decreases n,
{
    if n == 0 {
        0
    } else {
        units_with_field(units, key, (n - 1) as nat) + if units[n - 1].fields@.contains_key(key) {
            1nat
        } else {
            0
        }
    }
}

/// How many units of a component had a field before it was set, and how many
/// got it.
pub fn annotation_counts(target: &crate::intent::ComponentTarget, key: &str) -> (res:
    PropertyWriteCounts)
    ensures
        res.updated == units_with_field(target.units@, key@, target.units@.len()),
        res.updated + res.added == target.units@.len(),
{
    let mut updated: usize = 0;
    let mut i: usize = 0;
    while i < target.units.len()
        invariant
            i <= target.units@.len(),
            updated <= i,
            updated == units_with_field(target.units@, key@, i as nat),
        decreases target.units@.len() - i,
    {
        if target.units[i].fields.contains_key(key) {
            updated += 1;
        }
        i += 1;
    }
    PropertyWriteCounts { updated, added: target.units.len() - updated }
}

/// A request that puts components into a group.
#[derive(PartialEq, Eq, Debug)]
pub struct GroupSession {
    pub seen: TextMap<bool>,
    pub errors: Vec<String>,
}

/// What is to be done about an entry of the list of references.
#[derive(Clone, Copy, PartialEq, Eq, Debug, Structural)]
pub enum GroupStep {
    Skip,
    Take,
}

impl GroupSession {
    /// A request that has seen nothing.
    pub fn new() -> (res: GroupSession)
        ensures
            res.seen@ == Map::<Seq<char>, bool>::empty(),
            res.errors@.len() == 0,
    {
        GroupSession { seen: TextMap::new(), errors: Vec::new() }
    }

    fn add_error(&mut self, text: String)
        ensures
            texts(final(self).errors@) == texts(old(self).errors@).push(text@),
            final(self).seen == old(self).seen,
    {
        let ghost before = texts(self.errors@);
        self.errors.push(text);
        assert(texts(self.errors@) =~= before.push(text@));
    }

    /// Decides about the next entry: each reference is taken once, and what is
    /// no text is an error.
    pub fn next_entry(&mut self, reference: Option<&str>) -> (res: GroupStep)
        ensures
            match reference {
                None => res == GroupStep::Skip && final(self).seen@ == old(self).seen@ && texts(
                    final(self).errors@,
                ) == texts(old(self).errors@).push("Component reference must be a string"@),
                Some(text) => final(self).errors@ == old(self).errors@ && final(self).seen@.dom()
                    == old(self).seen@.dom().insert(text@) && res == (if old(
                    self,
                ).seen@.contains_key(text@) {
                    GroupStep::Skip
                } else {
                    GroupStep::Take
                }),
            },
    {
        match reference {
            None => {
                self.add_error(owned("Component reference must be a string"));
                GroupStep::Skip
            },
            Some(text) => {
                let ghost before = self.seen@;
                let fresh = self.seen.insert(owned(text), true);
                assert(self.seen@.dom() =~= before.dom().insert(text@));
                if fresh {
                    GroupStep::Take
                } else {
                    GroupStep::Skip
                }
            },
        }
    }

    /// Takes in that a component could not be bound. One that is not there is
    /// noted; anything else ends the request with the error that is returned.
    pub fn binding_failed(
        &mut self,
        reference: &str,
        error: ComponentDeleteTargetError,
    ) -> (res: Option<ToolError>)
        ensures
            final(self).seen == old(self).seen,
            if is_absence(error@) {
                res is None && texts(final(self).errors@) == texts(old(self).errors@).push(
                    "Component '"@ + reference@ + "' not found"@,
                )
            } else {
                final(self).errors@ == old(self).errors@ && (res matches Some(failure) && failure@
                    == error@.reported())
            },
    {
        let absent: bool = match &error {
            ComponentDeleteTargetError::Stale { reason, .. } => {
                proof {
                    reveal_strlit("is not present");
                }
                find_text(
                    reason.as_str(),
                    "is not present",
                    0,
                    reason.as_str().as_bytes().len(),
                ).is_some()
            },
            ComponentDeleteTargetError::Ambiguous { .. } => false,
        };
        if absent {
            self.add_error(concat3("Component '", reference, "' not found"));
            None
        } else {
            Some(error.into_result())
        }
    }

    /// Takes in that the group could not be written into a component.
    pub fn writing_failed(&mut self, reference: &str, why: &str)
        ensures
            final(self).seen == old(self).seen,
            texts(final(self).errors@) == texts(old(self).errors@).push(
                error_text(reference@, why@),
            ),
    {
        self.add_error(concat3(reference, ": ", why));
    }

    /// Decides whether anything is committed: without a component there is
    /// nothing to do, and the errors say why.
    pub fn decide(&self, path: &str, selected: usize) -> (res: Option<ToolError>)
        ensures
            selected > 0 ==> res is None,
            selected == 0 ==> (res matches Some(error) && error@ == stale(
                path@,
                if self.errors@.len() == 0 {
                    "no components were selected"@
                } else {
                    joined(texts(self.errors@), "; "@)
                },
            ).reported()),
    {
        if selected > 0 {
            return None;
        }
        let reason = if self.errors.len() == 0 {
            owned("no components were selected")
        } else {
            join(&self.errors, "; ")
        };
        Some(ComponentDeleteTargetError::stale(path, reason).into_result())
    }
}

/// The fault says that something is not there.
pub open spec fn is_absence(fault: TargetFault) -> bool {
    match fault {
        TargetFault::Stale { reason, .. } => first_in(
            encode_utf8(reason),
            encode_utf8("is not present"@),
            0,
            encode_utf8(reason).len() as int,
        ) is Some,
        TargetFault::Ambiguous { .. } => false,
    }
}

} // verus!
