//! Symbols as a saved schematic shows them.

use crate::sexp::{nodes, Sexp, SexpNode};
use crate::text::{concat3, concat5, join, joined, opt_text, ordered_list_of, text_eq, texts};
use crate::text_map::sorted_unique;
use crate::tool_error::{ComponentDeleteTargetError, TargetFault};
use vstd::prelude::*;
use vstd::string::*;

verus! {

/// A text between quotation marks, with what needs it escaped, as `{:?}` writes
/// it.
pub uninterp spec fn debug_text_of(text: Seq<char>) -> Seq<char>;

/// Formats a text with `{:?}`, that is with the `Debug` of `str` in std. What is
/// written goes by its name; that it depends on the text alone is what is
/// claimed.
#[verifier::external_body]
pub(crate) fn debug_text(text: &str) -> (res: String)
    ensures
        res@ == debug_text_of(text@),
{
    format!("{:?}", text)
}

/// One record of where a symbol is used in the hierarchy. `label` is how the
/// record is shown in a message.
#[derive(PartialEq, Eq, Debug)]
pub struct InstanceRecord {
    pub project: Option<String>,
    pub path: Option<String>,
    pub reference: Option<String>,
    pub unit: Option<u32>,
    pub label: String,
}

/// Where a field's text stands.
#[derive(Clone, Copy, PartialEq, Eq, Debug, Structural)]
pub struct FieldAt {
    pub x: i64,
    pub y: i64,
    pub rotation: Option<i64>,
}

/// A property of a symbol, with the nodes that it has besides its name and its
/// value.
#[derive(PartialEq, Eq, Debug)]
pub struct SymbolProperty {
    pub name: String,
    pub value: String,
    pub at: Option<FieldAt>,
    pub nodes: Vec<SexpNode>,
}

/// A placed symbol. `path_references` are the references that its instance
/// paths name, as far as they name one.
#[derive(PartialEq, Eq, Debug)]
pub struct SheetSymbol {
    pub uuid: String,
    pub lib_id: String,
    pub unit: u32,
    pub x: i64,
    pub y: i64,
    pub rotation: Option<i64>,
    pub mirror: Option<String>,
    pub properties: Vec<SymbolProperty>,
    pub instances: Vec<InstanceRecord>,
    pub path_references: Vec<Option<String>>,
}

/// A reference to a project and a path in it.
pub type PathView = (Seq<char>, Seq<char>);

/// The contents of a list of paths.
pub open spec fn path_views(list: Seq<(String, String)>) -> Seq<PathView> {
    Seq::new(list.len(), |i: int| (list[i].0@, list[i].1@))
}

/// The value of the first of the first `n` properties with this name.
pub open spec fn property_value(properties: Seq<SymbolProperty>, name: Seq<char>, n: nat) -> Option<
    Seq<char>,
>
    decreases n,
{
    if n == 0 {
        None
    } else {
        match property_value(properties, name, (n - 1) as nat) {
            Some(value) => Some(value),
            None => if properties[n - 1].name@ == name {
                Some(properties[n - 1].value@)
            } else {
                None
            },
        }
    }
}

impl SheetSymbol {
    /// The value of a property.
    pub open spec fn value_of(self, name: Seq<char>) -> Option<Seq<char>> {
        property_value(self.properties@, name, self.properties@.len())
    }

    /// The value of a property; one that is not there has the empty value.
    pub open spec fn value_or_empty(self, name: Seq<char>) -> Seq<char> {
        match self.value_of(name) {
            Some(value) => value,
            None => Seq::empty(),
        }
    }

    /// The value of a property.
    pub fn property(&self, name: &str) -> (res: Option<String>)
        ensures
            opt_text(res) == self.value_of(name@),
    {
        let mut i: usize = 0;
        while i < self.properties.len()
            invariant
                i <= self.properties@.len(),
                property_value(self.properties@, name@, i as nat) is None,
            decreases self.properties@.len() - i,
        {
            if text_eq(self.properties[i].name.as_str(), name) {
                proof {
                    lemma_value_stays(self.properties@, name@, (i + 1) as nat);
                }
                return Some(self.properties[i].value.clone());
            }
            i += 1;
        }
        None
    }

    /// The value of a property; one that is not there has the empty value.
    pub fn property_or_empty(&self, name: &str) -> (res: String)
        ensures
            res@ == self.value_or_empty(name@),
    {
        match self.property(name) {
            Some(value) => value,
            None => String::new(),
        }
    }
}

proof fn lemma_value_stays(properties: Seq<SymbolProperty>, name: Seq<char>, n: nat)
    requires
        n <= properties.len(),
        property_value(properties, name, n) is Some,
    ensures
        property_value(properties, name, properties.len()) == property_value(
            properties,
            name,
            n,
        ),
    decreases properties.len() - n,
{
    if n < properties.len() {
        lemma_value_stays(properties, name, n + 1);
    }
}

/// The node says that something is hidden.
pub open spec fn says_hidden(node: Sexp) -> bool {
    node.tagged("hide"@) && node.text_at(1) == Some("yes"@)
}

/// The node hides a field: itself, or among the effects that it lists.
pub open spec fn hides(node: Sexp) -> bool {
    says_hidden(node) || (node.tagged("effects"@) && exists|i: int|
        0 <= i < node.items().len() && says_hidden(#[trigger] node.items()[i]))
}

/// One of the nodes hides the field. KiCad writes the flag of a placed field
/// among its effects, and that of a library field beside them; a file may hold
/// either.
pub open spec fn is_hidden(list: Seq<Sexp>) -> bool {
    exists|i: int| 0 <= i < list.len() && hides(#[trigger] list[i])
}

fn node_says_hidden(node: &SexpNode) -> (res: bool)
    ensures
        res == says_hidden(node@),
{
    let tagged = node.is_tagged("hide");
    let yes: bool = match node.str_at(1) {
        Some(text) => text_eq(text, "yes"),
        None => false,
    };
    tagged && yes
}

fn node_hides(node: &SexpNode) -> (res: bool)
    ensures
        res == hides(node@),
{
    if node_says_hidden(node) {
        return true;
    }
    if !node.is_tagged("effects") {
        return false;
    }
    match node {
        SexpNode::List(children) => {
            let ghost items = node@.items();
            let mut i: usize = 0;
            while i < children.len()
                invariant
                    i <= children@.len(),
                    items == nodes(children@),
                    items == node@.items(),
                    node@.tagged("effects"@),
                    forall|j: int| 0 <= j < i ==> !says_hidden(#[trigger] items[j]),
                decreases children@.len() - i,
            {
                assert(items[i as int] == children@[i as int]@);
                if node_says_hidden(&children[i]) {
                    assert(says_hidden(node@.items()[i as int]));
                    return true;
                }
                i += 1;
            }
            false
        },
        _ => false,
    }
}

/// Whether a field is hidden.
pub fn field_hidden(list: &Vec<SexpNode>) -> (res: bool)
    ensures
        res == is_hidden(nodes(list@)),
{
    let ghost all = nodes(list@);
    let mut i: usize = 0;
    while i < list.len()
        invariant
            i <= list@.len(),
            all == nodes(list@),
            forall|j: int| 0 <= j < i ==> !hides(#[trigger] all[j]),
        decreases list@.len() - i,
    {
        assert(all[i as int] == list@[i as int]@);
        if node_hides(&list[i]) {
            return true;
        }
        i += 1;
    }
    false
}

/// The record has all that it needs.
pub open spec fn record_complete(record: InstanceRecord) -> bool {
    record.project is Some && record.path is Some && record.reference is Some && record.unit is Some
}

/// A record before this one has the same project and path.
pub open spec fn record_repeated(records: Seq<InstanceRecord>, i: int) -> bool {
    exists|j: int|
        0 <= j < i && opt_text((#[trigger] records[j]).project) == opt_text(records[i].project)
            && opt_text(records[j].path) == opt_text(records[i].path)
}

/// A record before this one is of another project.
pub open spec fn record_of_other_project(records: Seq<InstanceRecord>, i: int) -> bool {
    exists|j: int|
        0 <= j < i && opt_text((#[trigger] records[j]).project) != opt_text(records[i].project)
}

/// How the records are shown.
pub open spec fn record_labels(records: Seq<InstanceRecord>) -> Seq<Seq<char>> {
    Seq::new(records.len(), |i: int| records[i].label@)
}

/// What is wrong with record `i` of a symbol.
pub open spec fn record_fault(path: Seq<char>, symbol: SheetSymbol, i: int) -> Option<TargetFault> {
    let record = symbol.instances@[i];
    let name = "component UUID "@ + symbol.uuid@;
    if !record_complete(record) {
        Some(
            TargetFault::Stale {
                target: path,
                reason: name + " has incomplete instance metadata"@,
            },
        )
    } else if symbol.value_of("Reference"@) != opt_text(record.reference) {
        Some(
            TargetFault::Stale {
                target: path,
                reason: name + " has a conflicting instance reference"@,
            },
        )
    } else if record.unit->0 != symbol.unit || record_repeated(symbol.instances@, i)
        || record_of_other_project(symbol.instances@, i) {
        Some(
            TargetFault::Ambiguous {
                target: name + " instance records"@,
                candidates: record_labels(symbol.instances@),
            },
        )
    } else {
        None
    }
}

/// What is wrong with the first `n` records of a symbol.
pub open spec fn records_fault(path: Seq<char>, symbol: SheetSymbol, n: nat) -> Option<TargetFault>
    decreases n,
{
    if n == 0 {
        None
    } else {
        match records_fault(path, symbol, (n - 1) as nat) {
            Some(fault) => Some(fault),
            None => record_fault(path, symbol, n - 1),
        }
    }
}

/// The paths of the records.
pub open spec fn record_paths(records: Seq<InstanceRecord>) -> Set<Seq<char>> {
    Set::new(
        |path: Seq<char>|
            exists|i: int|
                0 <= i < records.len() && opt_text((#[trigger] records[i]).path) == Some(path),
    )
}

/// The same project with each of the paths.
pub open spec fn in_project(project: Seq<char>, paths: Seq<Seq<char>>) -> Seq<PathView> {
    Seq::new(paths.len(), |i: int| (project, paths[i]))
}

/// Where a symbol without faulty records is used, in order.
pub open spec fn usage(symbol: SheetSymbol) -> Seq<PathView> {
    if symbol.instances@.len() == 0 {
        Seq::empty()
    } else {
        in_project(
            symbol.instances@[0].project->0@,
            ordered_list_of(record_paths(symbol.instances@)),
        )
    }
}

proof fn lemma_records_fault_stays(path: Seq<char>, symbol: SheetSymbol, n: nat)
    requires
        n <= symbol.instances@.len(),
        records_fault(path, symbol, n) is Some,
    ensures
        records_fault(path, symbol, symbol.instances@.len()) == records_fault(path, symbol, n),
    decreases symbol.instances@.len() - n,
{
    if n < symbol.instances@.len() {
        lemma_records_fault_stays(path, symbol, n + 1);
    }
}

fn opt_same(a: &Option<String>, b: &Option<String>) -> (res: bool)
    ensures
        res == (opt_text(*a) == opt_text(*b)),
{
    crate::text::opt_eq(a, b)
}

fn clashes(records: &Vec<InstanceRecord>, i: usize) -> (res: bool)
    requires
        i < records@.len(),
    ensures
        res == (record_repeated(records@, i as int) || record_of_other_project(
            records@,
            i as int,
        )),
{
    let mut j: usize = 0;
    while j < i
        invariant
            j <= i,
            i < records@.len(),
            forall|k: int|
                0 <= k < j ==> opt_text((#[trigger] records@[k]).project) == opt_text(
                    records@[i as int].project,
                ) && opt_text(records@[k].path) != opt_text(records@[i as int].path),
        decreases i - j,
    {
        let (a, b) = (&records[j], &records[i]);
        let same_project = opt_same(&a.project, &b.project);
        let same_path = opt_same(&a.path, &b.path);
        if !same_project {
            assert(record_of_other_project(records@, i as int));
            return true;
        }
        if same_path {
            assert(record_repeated(records@, i as int));
            return true;
        }
        j += 1;
    }
    false
}

fn check_record(path: &str, symbol: &SheetSymbol, i: usize) -> (res: Option<
    ComponentDeleteTargetError,
>)
    requires
        i < symbol.instances@.len(),
    ensures
        match res {
            Some(error) => record_fault(path@, *symbol, i as int) == Some(error@),
            None => record_fault(path@, *symbol, i as int) is None,
        },
{
    let record = &symbol.instances[i];
    let complete = record.project.is_some() && record.path.is_some() && record.reference.is_some()
        && record.unit.is_some();
    if !complete {
        return Some(
            ComponentDeleteTargetError::stale(
                path,
                concat3(
                    "component UUID ",
                    symbol.uuid.as_str(),
                    " has incomplete instance metadata",
                ),
            ),
        );
    }
    let reference = symbol.property("Reference");
    if !opt_same(&reference, &record.reference) {
        return Some(
            ComponentDeleteTargetError::stale(
                path,
                concat3(
                    "component UUID ",
                    symbol.uuid.as_str(),
                    " has a conflicting instance reference",
                ),
            ),
        );
    }
    let other_unit: bool = match record.unit {
        Some(unit) => unit != symbol.unit,
        None => true,
    };
    if other_unit || clashes(&symbol.instances, i) {
        let mut candidates: Vec<String> = Vec::new();
        let ghost all = record_labels(symbol.instances@);
        let mut k: usize = 0;
        assert(texts(candidates@) =~= all.take(0));
        while k < symbol.instances.len()
            invariant
                k <= symbol.instances@.len(),
                all == record_labels(symbol.instances@),
                texts(candidates@) == all.take(k as int),
            decreases symbol.instances@.len() - k,
        {
            let ghost before = texts(candidates@);
            candidates.push(symbol.instances[k].label.clone());
            assert(texts(candidates@) =~= before.push(all[k as int]));
            assert(all.take(k + 1) =~= all.take(k as int).push(all[k as int]));
            k += 1;
        }
        assert(all.take(k as int) =~= all);
        return Some(
            ComponentDeleteTargetError::Ambiguous {
                target: concat3("component UUID ", symbol.uuid.as_str(), " instance records"),
                candidates,
            },
        );
    }
    None
}

/// Where a symbol is used. Records that are incomplete, that conflict with the
/// symbol or that repeat themselves are an error, and are not collapsed into a
/// plausible answer.
pub fn checked_instance_paths(path: &str, symbol: &SheetSymbol) -> (res: Result<
    Vec<(String, String)>,
    ComponentDeleteTargetError,
>)
    ensures
        match records_fault(path@, *symbol, symbol.instances@.len()) {
            Some(fault) => res matches Err(error) && error@ == fault,
            None => res matches Ok(list) && path_views(list@) == usage(*symbol),
        },
{
    let records = &symbol.instances;
    let mut paths: Vec<String> = Vec::new();
    let mut i: usize = 0;
    while i < records.len()
        invariant
            i <= records@.len(),
            records@ == symbol.instances@,
            records_fault(path@, *symbol, i as nat) is None,
            forall|j: int| 0 <= j < i ==> record_complete(#[trigger] records@[j]),
            forall|text: Seq<char>| #[trigger]
                texts(paths@).contains(text) <==> exists|j: int|
                    0 <= j < i && opt_text((#[trigger] records@[j]).path) == Some(text),
        decreases records@.len() - i,
    {
        if let Some(error) = check_record(path, symbol, i) {
            proof {
                lemma_records_fault_stays(path@, *symbol, (i + 1) as nat);
            }
            return Err(error);
        }
        let ghost before = texts(paths@);
        if let Some(own) = &records[i].path {
            paths.push(own.clone());
            proof {
                let now = texts(paths@);
                assert(now =~= before.push(own@));
                assert forall|text: Seq<char>| #[trigger] now.contains(text) <==> exists|j: int|
                    0 <= j < i + 1 && opt_text((#[trigger] records@[j]).path) == Some(text) by {
                    assert(before.contains(text) <==> exists|j: int|
                        0 <= j < i && opt_text((#[trigger] records@[j]).path) == Some(text));
                    if before.contains(text) {
                        assert(now[before.index_of(text)] == text);
                    }
                    assert(now[before.len() as int] == own@);
                    assert(opt_text(records@[i as int].path) == Some(own@));
                }
            }
        }
        i += 1;
    }
    let sorted = sorted_unique(&paths);
    assert(texts(paths@).to_set() =~= record_paths(symbol.instances@));
    let mut res: Vec<(String, String)> = Vec::new();
    if records.len() == 0 {
        assert(path_views(res@) =~= Seq::empty());
        return Ok(res);
    }
    let ghost goal = usage(*symbol);
    let project = match &records[0].project {
        Some(project) => project.clone(),
        None => String::new(),
    };
    assert(record_complete(records@[0]));
    assert(goal.len() == texts(sorted@).len());
    let mut k: usize = 0;
    assert(path_views(res@) =~= goal.take(0));
    while k < sorted.len()
        invariant
            k <= sorted@.len(),
            goal == in_project(project@, texts(sorted@)),
            path_views(res@) == goal.take(k as int),
        decreases sorted@.len() - k,
    {
        let ghost before = path_views(res@);
        res.push((project.clone(), sorted[k].clone()));
        assert(path_views(res@) =~= before.push(goal[k as int]));
        assert(goal.take(k + 1) =~= goal.take(k as int).push(goal[k as int]));
        k += 1;
    }
    assert(goal.take(k as int) =~= goal);
    Ok(res)
}

/// How a list of paths is shown.
pub open spec fn paths_text(list: Seq<PathView>) -> Seq<char> {
    "["@ + joined(path_texts(list), ", "@) + "]"@
}

/// How each path is shown.
pub open spec fn path_texts(list: Seq<PathView>) -> Seq<Seq<char>> {
    Seq::new(
        list.len(),
        |i: int|
            "("@ + debug_text_of(list[i].0) + ", "@ + debug_text_of(list[i].1) + ")"@,
    )
}

/// Shows a list of paths.
pub fn write_paths(list: &Vec<(String, String)>) -> (res: String)
    ensures
        res@ == paths_text(path_views(list@)),
{
    let ghost all = path_texts(path_views(list@));
    let mut parts: Vec<String> = Vec::new();
    let mut i: usize = 0;
    assert(texts(parts@) =~= all.take(0));
    while i < list.len()
        invariant
            i <= list@.len(),
            all == path_texts(path_views(list@)),
            texts(parts@) == all.take(i as int),
        decreases list@.len() - i,
    {
        let ghost before = texts(parts@);
        let (project, path) = (&list[i].0, &list[i].1);
        let part = concat5(
            "(",
            debug_text(project.as_str()).as_str(),
            ", ",
            debug_text(path.as_str()).as_str(),
            ")",
        );
        parts.push(part);
        assert(texts(parts@) =~= before.push(all[i as int]));
        assert(all.take(i + 1) =~= all.take(i as int).push(all[i as int]));
        i += 1;
    }
    assert(all.take(i as int) =~= all);
    concat3("[", join(&parts, ", ").as_str(), "]")
}

/// Whether two lists of paths are equal.
pub fn same_paths(a: &Vec<(String, String)>, b: &Vec<(String, String)>) -> (res: bool)
    ensures
        res == (path_views(a@) == path_views(b@)),
{
    let ghost (x, y) = (path_views(a@), path_views(b@));
    assert(x.len() == a@.len() && y.len() == b@.len());
    if a.len() != b.len() {
        return false;
    }
    let mut i: usize = 0;
    while i < a.len()
        invariant
            i <= a@.len(),
            a@.len() == b@.len(),
            x == path_views(a@),
            y == path_views(b@),
            forall|j: int| 0 <= j < i ==> x[j] == y[j],
        decreases a@.len() - i,
    {
        let same = text_eq(a[i].0.as_str(), b[i].0.as_str()) && text_eq(
            a[i].1.as_str(),
            b[i].1.as_str(),
        );
        assert(same == (x[i as int] == y[i as int]));
        if !same {
            return false;
        }
        i += 1;
    }
    assert(x =~= y);
    true
}

/// A copy of a list of paths.
pub fn clone_paths(list: &Vec<(String, String)>) -> (res: Vec<(String, String)>)
    ensures
        path_views(res@) == path_views(list@),
{
    let ghost all = path_views(list@);
    let mut res: Vec<(String, String)> = Vec::new();
    let mut i: usize = 0;
    assert(path_views(res@) =~= all.take(0));
    while i < list.len()
        invariant
            i <= list@.len(),
            all == path_views(list@),
            path_views(res@) == all.take(i as int),
        decreases list@.len() - i,
    {
        let ghost before = path_views(res@);
        res.push((list[i].0.clone(), list[i].1.clone()));
        assert(path_views(res@) =~= before.push(all[i as int]));
        assert(all.take(i + 1) =~= all.take(i as int).push(all[i as int]));
        i += 1;
    }
    assert(all.take(i as int) =~= all);
    res
}

/// A symbol whose records are accepted is used in one project only.
pub proof fn law_one_project(path: Seq<char>, symbol: SheetSymbol, n: nat, i: int)
    requires
        n <= symbol.instances@.len(),
        records_fault(path, symbol, n) is None,
        0 <= i < n,
    ensures
        record_complete(symbol.instances@[i]),
        opt_text(symbol.instances@[i].project) == opt_text(symbol.instances@[0].project),
        opt_text(symbol.instances@[i].reference) == symbol.value_of("Reference"@),
        symbol.instances@[i].unit == Some(symbol.unit),
    decreases n,
{
    if i < n - 1 {
        law_one_project(path, symbol, (n - 1) as nat, i);
    } else {
        assert(record_fault(path, symbol, i) is None);
        if i > 0 {
            law_one_project(path, symbol, (n - 1) as nat, 0);
            assert(!record_of_other_project(symbol.instances@, i));
        }
    }
}

} // verus!
