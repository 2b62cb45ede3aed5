//! The files of a saved schematic hierarchy.
//!
//! The files are visited from the root down, each once. What is on disk is
//! handed in; which file comes next, and what keeps the hierarchy from being
//! read, is decided here.

use crate::text::{
    concat2, concat3, concat5, contains_text, lemma_text_before_irreflexive, owned, text_before,
    texts,
};
use crate::text_map::TextMap;
use vstd::prelude::*;
use vstd::string::*;

verus! {

/// A child sheet as its parent names it.
#[derive(PartialEq, Eq, Debug)]
pub enum ChildSheet {
    /// There is no such file.
    Missing { shown: String },
    /// The file is there, and its path cannot be resolved.
    Unresolved { shown: String, cause: String },
    /// The file, by its resolved path.
    File { file: String },
}

/// A schematic file: whether its path ends in a name, whether an editor holds
/// it, and its child sheets or why it cannot be loaded.
#[derive(PartialEq, Eq, Debug)]
pub struct SheetFile {
    pub has_name: bool,
    pub locked: bool,
    pub children: Result<Vec<ChildSheet>, String>,
}

/// Why a hierarchy cannot be read.
#[derive(PartialEq, Eq, Debug)]
pub enum HierarchyError {
    Cycle { file: String },
    NoName { file: String },
    Locked { file: String },
    Unloadable { file: String, cause: String },
    Unread { file: String },
    MissingSheet { shown: String, file: String },
    UnresolvedSheet { shown: String, cause: String },
}

/// The content of a [`HierarchyError`].
pub enum HierarchyFault {
    Cycle { file: Seq<char> },
    NoName { file: Seq<char> },
    Locked { file: Seq<char> },
    Unloadable { file: Seq<char>, cause: Seq<char> },
    Unread { file: Seq<char> },
    MissingSheet { shown: Seq<char>, file: Seq<char> },
    UnresolvedSheet { shown: Seq<char>, cause: Seq<char> },
}

impl View for HierarchyError {
    type V = HierarchyFault;

    open spec fn view(&self) -> HierarchyFault {
        match self {
            HierarchyError::Cycle { file } => HierarchyFault::Cycle { file: file@ },
            HierarchyError::NoName { file } => HierarchyFault::NoName { file: file@ },
            HierarchyError::Locked { file } => HierarchyFault::Locked { file: file@ },
            HierarchyError::Unloadable { file, cause } => HierarchyFault::Unloadable {
                file: file@,
                cause: cause@,
            },
            HierarchyError::Unread { file } => HierarchyFault::Unread { file: file@ },
            HierarchyError::MissingSheet { shown, file } => HierarchyFault::MissingSheet {
                shown: shown@,
                file: file@,
            },
            HierarchyError::UnresolvedSheet { shown, cause } => HierarchyFault::UnresolvedSheet {
                shown: shown@,
                cause: cause@,
            },
        }
    }
}

/// What is said of a file that an editor holds.
pub open spec fn locked_text(file: Seq<char>) -> Seq<char> {
    file + " is open in the schematic editor; save and close the hierarchy before syncing"@
}

impl HierarchyFault {
    /// The message of the fault.
    pub open spec fn text(self) -> Seq<char> {
        match self {
            HierarchyFault::Cycle { file } => "schematic hierarchy contains a cycle at "@ + file,
            HierarchyFault::NoName { .. } => "schematic path has no file name"@,
            HierarchyFault::Locked { file } => locked_text(file),
            HierarchyFault::Unloadable { file, cause } => "cannot load schematic "@ + file + ": "@
                + cause,
            HierarchyFault::Unread { file } => "cannot load schematic "@ + file,
            HierarchyFault::MissingSheet { shown, file } => "hierarchical sheet "@ + shown
                + " referenced by "@ + file + " does not exist"@,
            HierarchyFault::UnresolvedSheet { shown, cause } => "cannot resolve schematic "@
                + shown + ": "@ + cause,
        }
    }
}

/// Why a file is refused that an editor may hold, if it is.
pub fn refuse_locked(file: &str, locked: bool) -> (res: Option<String>)
    ensures
        locked ==> (res matches Some(message) && message@ == file@
            + " is open in the schematic editor; save and close the hierarchy before syncing"@),
        !locked ==> res is None,
{
    if locked {
        Some(
            concat2(
                file,
                " is open in the schematic editor; save and close the hierarchy before syncing",
            ),
        )
    } else {
        None
    }
}

impl HierarchyError {
    /// The message of the error.
    pub fn message(&self) -> (res: String)
        ensures
            res@ == self@.text(),
    {
        match self {
            HierarchyError::Cycle { file } => concat2(
                "schematic hierarchy contains a cycle at ",
                file.as_str(),
            ),
            HierarchyError::NoName { .. } => owned("schematic path has no file name"),
            HierarchyError::Locked { file } => match refuse_locked(file.as_str(), true) {
                Some(message) => message,
                None => String::new(),
            },
            HierarchyError::Unloadable { file, cause } => {
                let mut text = concat3("cannot load schematic ", file.as_str(), ": ");
                text.append(cause.as_str());
                text
            },
            HierarchyError::Unread { file } => concat2("cannot load schematic ", file.as_str()),
            HierarchyError::MissingSheet { shown, file } => concat5(
                "hierarchical sheet ",
                shown.as_str(),
                " referenced by ",
                file.as_str(),
                " does not exist",
            ),
            HierarchyError::UnresolvedSheet { shown, cause } => {
                let mut text = concat3("cannot resolve schematic ", shown.as_str(), ": ");
                text.append(cause.as_str());
                text
            },
        }
    }
}

/// The files after one more is visited, with its children, or the first fault.
/// `active` are the files on the way from the root, and `left` is how many more
/// can be on it.
pub open spec fn visited(
    disk: Map<Seq<char>, SheetFile>,
    file: Seq<char>,
    files: Seq<Seq<char>>,
    active: Seq<Seq<char>>,
    left: nat,
) -> Result<Seq<Seq<char>>, HierarchyFault>
    decreases left, 0nat,
{
    if active.contains(file) {
        Err(HierarchyFault::Cycle { file })
    } else if files.contains(file) {
        Ok(files)
    } else if !disk.contains_key(file) {
        Err(HierarchyFault::Unread { file })
    } else if !disk[file].has_name {
        Err(HierarchyFault::NoName { file })
    } else if disk[file].locked {
        Err(HierarchyFault::Locked { file })
    } else {
        match disk[file].children {
            Err(cause) => Err(HierarchyFault::Unloadable { file, cause: cause@ }),
            Ok(children) => if left == 0 {
                Err(HierarchyFault::Cycle { file })
            } else {
                children_visited(
                    disk,
                    file,
                    children@,
                    files.push(file),
                    active.push(file),
                    (left - 1) as nat,
                    children@.len(),
                )
            },
        }
    }
}

/// The files after the first `n` children of a file are visited, or the first
/// fault.
pub open spec fn children_visited(
    disk: Map<Seq<char>, SheetFile>,
    file: Seq<char>,
    children: Seq<ChildSheet>,
    files: Seq<Seq<char>>,
    active: Seq<Seq<char>>,
    left: nat,
    n: nat,
) -> Result<Seq<Seq<char>>, HierarchyFault>
    decreases left, n,
{
    if n == 0 {
        Ok(files)
    } else {
        match children_visited(disk, file, children, files, active, left, (n - 1) as nat) {
            Err(fault) => Err(fault),
            Ok(sofar) => match children[n - 1] {
                ChildSheet::Missing { shown } => Err(
                    HierarchyFault::MissingSheet { shown: shown@, file },
                ),
                ChildSheet::Unresolved { shown, cause } => Err(
                    HierarchyFault::UnresolvedSheet { shown: shown@, cause: cause@ },
                ),
                ChildSheet::File { file: child } => visited(disk, child@, sofar, active, left),
            },
        }
    }
}

/// The files of the hierarchy below a root, or the first fault.
pub open spec fn hierarchy_of(disk: Map<Seq<char>, SheetFile>, root: Seq<char>) -> Result<
    Seq<Seq<char>>,
    HierarchyFault,
> {
    visited(disk, root, Seq::empty(), Seq::empty(), disk.dom().len())
}

proof fn lemma_child_fault_stays(
    disk: Map<Seq<char>, SheetFile>,
    file: Seq<char>,
    children: Seq<ChildSheet>,
    files: Seq<Seq<char>>,
    active: Seq<Seq<char>>,
    left: nat,
    n: nat,
    m: nat,
)
    requires
        n <= m,
        children_visited(disk, file, children, files, active, left, n) is Err,
    ensures
        children_visited(disk, file, children, files, active, left, m) == children_visited(
            disk,
            file,
            children,
            files,
            active,
            left,
            n,
        ),
    decreases m - n,
{
    if n < m {
        lemma_child_fault_stays(disk, file, children, files, active, left, n, (m - 1) as nat);
    }
}

fn visit(
    disk: &TextMap<SheetFile>,
    file: &str,
    files: &mut Vec<String>,
    active: &mut Vec<String>,
    left: usize,
) -> (res: Result<(), HierarchyError>)
    ensures
        match visited(
            disk@,
            file@,
            texts(old(files)@),
            texts(old(active)@),
            left as nat,
        ) {
            Ok(list) => res is Ok && texts(final(files)@) == list && final(active)@ == old(
                active,
            )@,
            Err(fault) => res matches Err(error) && error@ == fault,
        },
    decreases left,
{
    let ghost before = texts(files@);
    let ghost way = texts(active@);
    let ghost kept = active@;
    if contains_text(active, file) {
        return Err(HierarchyError::Cycle { file: owned(file) });
    }
    if contains_text(files, file) {
        return Ok(());
    }
    let sheet = match disk.get(file) {
        Some(sheet) => sheet,
        None => {
            return Err(HierarchyError::Unread { file: owned(file) });
        },
    };
    if !sheet.has_name {
        return Err(HierarchyError::NoName { file: owned(file) });
    }
    if refuse_locked(file, sheet.locked).is_some() {
        return Err(HierarchyError::Locked { file: owned(file) });
    }
    let children = match &sheet.children {
        Ok(children) => children,
        Err(cause) => {
            return Err(HierarchyError::Unloadable { file: owned(file), cause: cause.clone() });
        },
    };
    if left == 0 {
        return Err(HierarchyError::Cycle { file: owned(file) });
    }
    files.push(owned(file));
    active.push(owned(file));
    let ghost start = before.push(file@);
    let ghost deeper = way.push(file@);
    let ghost inner = active@;
    proof {
        assert(texts(files@) =~= start);
        assert(texts(active@) =~= deeper);
        assert(visited(disk@, file@, before, way, left as nat) == children_visited(
            disk@,
            file@,
            children@,
            start,
            deeper,
            (left - 1) as nat,
            children@.len(),
        ));
    }
    let mut i: usize = 0;
    while i < children.len()
        invariant
            i <= children@.len(),
            left > 0,
            deeper == texts(inner),
            active@ == inner,
            kept == old(active)@,
            inner.len() == kept.len() + 1,
            inner.drop_last() == kept,
            before == texts(old(files)@),
            way == texts(old(active)@),
            start == before.push(file@),
            visited(disk@, file@, before, way, left as nat) == children_visited(
                disk@,
                file@,
                children@,
                start,
                deeper,
                (left - 1) as nat,
                children@.len(),
            ),
            children_visited(
                disk@,
                file@,
                children@,
                start,
                deeper,
                (left - 1) as nat,
                i as nat,
            ) == Ok::<Seq<Seq<char>>, HierarchyFault>(texts(files@)),
        decreases children@.len() - i,
    {
        let outcome = match &children[i] {
            ChildSheet::Missing { shown } => Err(
                HierarchyError::MissingSheet { shown: shown.clone(), file: owned(file) },
            ),
            ChildSheet::Unresolved { shown, cause } => Err(
                HierarchyError::UnresolvedSheet { shown: shown.clone(), cause: cause.clone() },
            ),
            ChildSheet::File { file: child } => visit(
                disk,
                child.as_str(),
                files,
                active,
                left - 1,
            ),
        };
        if let Err(error) = outcome {
            proof {
                lemma_child_fault_stays(
                    disk@,
                    file@,
                    children@,
                    start,
                    deeper,
                    (left - 1) as nat,
                    (i + 1) as nat,
                    children@.len(),
                );
            }
            return Err(error);
        }
        i += 1;
    }
    active.pop();
    assert(active@ =~= kept);
    Ok(())
}

/// The number of keys of a map.
proof fn lemma_key_count(disk: TextMap<SheetFile>)
    requires
        disk.ordered(),
    ensures
        disk@.dom().len() == disk.keys().len(),
{
    let keys = disk.keys();
    assert forall|i: int, j: int| 0 <= i < keys.len() && 0 <= j < keys.len() && i
        != j implies keys[i] != keys[j] by {
        lemma_text_before_irreflexive(keys[i]);
        if i < j {
            assert(text_before(keys[i], keys[j]));
        } else {
            assert(text_before(keys[j], keys[i]));
        }
    }
    keys.unique_seq_to_set();
    assert(disk@.dom() =~= keys.to_set());
}

/// The files of the saved hierarchy below a root, each once, in the order in
/// which they are reached. `disk` holds every file that can be reached.
pub fn saved_hierarchy_files(root: &str, disk: &TextMap<SheetFile>) -> (res: Result<
    Vec<String>,
    HierarchyError,
>)
    ensures
        match hierarchy_of(disk@, root@) {
            Ok(list) => res matches Ok(files) && texts(files@) == list,
            Err(fault) => res matches Err(error) && error@ == fault,
        },
{
    let mut files: Vec<String> = Vec::new();
    let mut active: Vec<String> = Vec::new();
    let count: usize = disk.len();
    proof {
        lemma_key_count(*disk);
        assert(texts(files@) =~= Seq::empty());
        assert(texts(active@) =~= Seq::empty());
    }
    match visit(disk, root, &mut files, &mut active, count) {
        Ok(_) => Ok(files),
        Err(error) => Err(error),
    }
}

} // verus!
