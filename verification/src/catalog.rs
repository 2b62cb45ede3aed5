//! The tools that are offered, and the arguments that they take.

use crate::page::{paper_names, paper_sizes, PAPER_COUNT};
use vstd::prelude::*;
use vstd::string::*;

verus! {

/// What sort of value an argument has. A list is one of texts.
#[derive(Clone, Copy, PartialEq, Eq, Debug, Structural)]
pub enum ArgumentKind {
    Text,
    Number,
    Integer,
    Flag,
    TextList,
    Object,
}

/// What an argument is when it is left out. Numbers are millionths.
#[derive(Clone, Copy, PartialEq, Eq, Debug)]
pub enum DefaultValue {
    Text(&'static str),
    Flag(bool),
    Number(i64),
}

/// The content of a [`DefaultValue`].
pub enum DefaultView {
    Text(Seq<char>),
    Flag(bool),
    Number(i64),
}

impl View for DefaultValue {
    type V = DefaultView;

    open spec fn view(&self) -> DefaultView {
        match self {
            DefaultValue::Text(text) => DefaultView::Text(text@),
            DefaultValue::Flag(flag) => DefaultView::Flag(*flag),
            DefaultValue::Number(number) => DefaultView::Number(*number),
        }
    }
}

/// What a number must not be below: the bound itself is allowed, or it is not.
#[derive(Clone, Copy, PartialEq, Eq, Debug, Structural)]
pub enum Bound {
    AtLeast(i64),
    Above(i64),
}

/// A member of the objects under an argument.
#[derive(Clone, Copy, PartialEq, Eq, Debug)]
pub struct Member {
    pub name: &'static str,
    pub kind: ArgumentKind,
    pub description: Option<&'static str>,
}

/// The content of a [`Member`].
pub struct MemberView {
    pub name: Seq<char>,
    pub kind: ArgumentKind,
    pub description: Option<Seq<char>>,
}

impl View for Member {
    type V = MemberView;

    open spec fn view(&self) -> MemberView {
        MemberView { name: self.name@, kind: self.kind, description: words_of(self.description) }
    }
}

/// What an object may hold under keys of the caller's choice: nothing is said,
/// anything, or objects with these members.
#[derive(PartialEq, Eq, Debug)]
pub enum Entries {
    Unsaid,
    Anything,
    Objects(Vec<Member>),
}

/// The content of an [`Entries`].
pub enum EntriesView {
    Unsaid,
    Anything,
    Objects(Seq<MemberView>),
}

impl View for Entries {
    type V = EntriesView;

    open spec fn view(&self) -> EntriesView {
        match self {
            Entries::Unsaid => EntriesView::Unsaid,
            Entries::Anything => EntriesView::Anything,
            Entries::Objects(members) => EntriesView::Objects(member_views(members@)),
        }
    }
}

/// The contents of a list of members.
pub open spec fn member_views(list: Seq<Member>) -> Seq<MemberView> {
    Seq::new(list.len(), |i: int| list[i]@)
}

/// An argument of a tool. `choices` are the texts that it may be, where it is
/// not free.
#[derive(PartialEq, Eq, Debug)]
pub struct ToolArgument {
    pub name: &'static str,
    pub kind: ArgumentKind,
    pub required: bool,
    pub description: Option<&'static str>,
    pub choices: Vec<&'static str>,
    pub default_value: Option<DefaultValue>,
    pub bound: Option<Bound>,
    pub entries: Entries,
}

/// A tool with its arguments.
#[derive(PartialEq, Eq, Debug)]
pub struct ToolEntry {
    pub name: &'static str,
    pub description: &'static str,
    pub arguments: Vec<ToolArgument>,
}

/// The content of a [`ToolArgument`].
pub struct ArgumentView {
    pub name: Seq<char>,
    pub kind: ArgumentKind,
    pub required: bool,
    pub description: Option<Seq<char>>,
    pub choices: Seq<Seq<char>>,
    pub default_value: Option<DefaultView>,
    pub bound: Option<Bound>,
    pub entries: EntriesView,
}

/// The content of a [`ToolEntry`].
pub struct ToolView {
    pub name: Seq<char>,
    pub description: Seq<char>,
    pub arguments: Seq<ArgumentView>,
}

/// The words of a description, if there is one.
pub open spec fn words_of(description: Option<&'static str>) -> Option<Seq<char>> {
    match description {
        Some(text) => Some(text@),
        None => None,
    }
}

/// The contents of a list of texts.
pub open spec fn choice_views(list: Seq<&'static str>) -> Seq<Seq<char>> {
    Seq::new(list.len(), |i: int| list[i]@)
}

impl View for ToolArgument {
    type V = ArgumentView;

    open spec fn view(&self) -> ArgumentView {
        ArgumentView {
            name: self.name@,
            kind: self.kind,
            required: self.required,
            description: words_of(self.description),
            choices: choice_views(self.choices@),
            default_value: match self.default_value {
                Some(value) => Some(value@),
                None => None,
            },
            bound: self.bound,
            entries: self.entries@,
        }
    }
}

impl View for ToolEntry {
    type V = ToolView;

    open spec fn view(&self) -> ToolView {
        ToolView {
            name: self.name@,
            description: self.description@,
            arguments: Seq::new(self.arguments@.len(), |i: int| self.arguments@[i]@),
        }
    }
}

/// An argument of which nothing more is said.
pub open spec fn plain(name: Seq<char>, kind: ArgumentKind, required: bool) -> ArgumentView {
    ArgumentView {
        name,
        kind,
        required,
        description: None,
        choices: Seq::empty(),
        default_value: None,
        bound: None,
        entries: EntriesView::Unsaid,
    }
}

/// An argument that must be given.
pub open spec fn needs(name: Seq<char>, kind: ArgumentKind) -> ArgumentView {
    plain(name, kind, true)
}

/// An argument that may be given.
pub open spec fn takes(name: Seq<char>, kind: ArgumentKind) -> ArgumentView {
    plain(name, kind, false)
}

impl ArgumentView {
    /// The argument with what it is for.
    pub open spec fn says(self, text: Seq<char>) -> ArgumentView {
        ArgumentView { description: Some(text), ..self }
    }

    /// The argument with the texts that it may be.
    pub open spec fn among(self, choices: Seq<Seq<char>>) -> ArgumentView {
        ArgumentView { choices, ..self }
    }

    /// The argument with what it is when it is left out.
    pub open spec fn otherwise(self, value: DefaultView) -> ArgumentView {
        ArgumentView { default_value: Some(value), ..self }
    }

    /// The argument with what it must not be below.
    pub open spec fn bounded(self, bound: Bound) -> ArgumentView {
        ArgumentView { bound: Some(bound), ..self }
    }

    /// The argument with what its object may hold.
    pub open spec fn holding(self, entries: EntriesView) -> ArgumentView {
        ArgumentView { entries, ..self }
    }
}

fn bare(name: &'static str, kind: ArgumentKind, required: bool) -> (res: ToolArgument)
    ensures
        res@ == plain(name@, kind, required),
{
    let res = ToolArgument {
        name,
        kind,
        required,
        description: None,
        choices: Vec::new(),
        default_value: None,
        bound: None,
        entries: Entries::Unsaid,
    };
    assert(choice_views(res.choices@) =~= Seq::empty());
    res
}

/// An argument that must be given.
pub fn required(name: &'static str, kind: ArgumentKind) -> (res: ToolArgument)
    ensures
        res@ == needs(name@, kind),
{
    bare(name, kind, true)
}

/// An argument that may be given.
pub fn optional(name: &'static str, kind: ArgumentKind) -> (res: ToolArgument)
    ensures
        res@ == takes(name@, kind),
{
    bare(name, kind, false)
}

impl ToolArgument {
    /// The argument with what it is for.
    pub fn says(self, text: &'static str) -> (res: ToolArgument)
        ensures
            res@ == self@.says(text@),
    {
        let mut res = self;
        res.description = Some(text);
        res
    }

    /// The argument with the texts that it may be.
    pub fn among(self, choices: Vec<&'static str>) -> (res: ToolArgument)
        ensures
            res@ == self@.among(choice_views(choices@)),
    {
        let mut res = self;
        res.choices = choices;
        res
    }

    /// The argument with what it is when it is left out.
    pub fn otherwise(self, value: DefaultValue) -> (res: ToolArgument)
        ensures
            res@ == self@.otherwise(value@),
    {
        let mut res = self;
        res.default_value = Some(value);
        res
    }

    /// The argument with what it must not be below.
    pub fn bounded(self, bound: Bound) -> (res: ToolArgument)
        ensures
            res@ == self@.bounded(bound),
    {
        let mut res = self;
        res.bound = Some(bound);
        res
    }

    /// The argument with what its object may hold.
    pub fn holding(self, entries: Entries) -> (res: ToolArgument)
        ensures
            res@ == self@.holding(entries@),
    {
        let mut res = self;
        res.entries = entries;
        res
    }
}

/// A tool with its arguments.
pub fn entry(
    name: &'static str,
    description: &'static str,
    arguments: Vec<ToolArgument>,
) -> (res: ToolEntry)
    ensures
        res.name@ == name@,
        res.description@ == description@,
        res.arguments == arguments,
{
    ToolEntry { name, description, arguments }
}

/// The names of the paper sizes that a sheet can have.
pub fn paper_choices() -> (res: Vec<&'static str>)
    ensures
        choice_views(res@) == paper_names(PAPER_COUNT as int),
{
    let table = paper_sizes();
    let mut list: Vec<&'static str> = Vec::new();
    let mut i: usize = 0;
    while i < table.len()
        invariant
            i <= table@.len(),
            table@.len() == PAPER_COUNT,
            crate::page::lists_paper(table@),
            list@.len() == i,
            forall|j: int| 0 <= j < i ==> (#[trigger] list@[j])@ == table@[j].name@,
        decreases table@.len() - i,
    {
        list.push(table[i].name);
        i += 1;
    }
    assert(choice_views(list@) =~= paper_names(PAPER_COUNT as int));
    list
}

/// What the axis of a reflection may be.
pub open spec fn axes() -> Seq<Seq<char>> {
    seq!["x"@, "y"@, "none"@]
}

/// What the axis of a reflection may be.
pub fn axis_choices() -> (res: Vec<&'static str>)
    ensures
        choice_views(res@) == axes(),
{
    let list: Vec<&'static str> = vec!["x", "y", "none"];
    assert(choice_views(list@) =~= axes());
    list
}

} // verus!
