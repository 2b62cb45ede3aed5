//! What holds of every walk through a saved hierarchy.

use crate::hierarchy::{
    children_visited, hierarchy_of, visited, ChildSheet, HierarchyFault, SheetFile,
};
use vstd::prelude::*;
use vstd::string::*;

verus! {

/// The files on disk by path.
pub type Disk = Map<Seq<char>, SheetFile>;

/// One file has the other as a child sheet.
pub open spec fn leads_to(disk: Disk, a: Seq<char>, b: Seq<char>) -> bool {
    &&& disk.contains_key(a)
    &&& disk[a].children is Ok
    &&& exists|i: int|
        0 <= i < disk[a].children->Ok_0@.len() && (#[trigger] disk[a].children->Ok_0@[i]
            matches ChildSheet::File { file } && file@ == b)
}

/// Each file of the list has the next as a child sheet.
pub open spec fn is_way(disk: Disk, way: Seq<Seq<char>>) -> bool {
    &&& way.len() >= 2
    &&& forall|i: int| 0 <= i < way.len() - 1 ==> leads_to(disk, #[trigger] way[i], way[i + 1])
}

/// One file is below the other in the hierarchy.
pub open spec fn is_below(disk: Disk, a: Seq<char>, b: Seq<char>) -> bool {
    exists|way: Seq<Seq<char>>| #[trigger] is_way(disk, way) && way[0] == a && way.last() == b
}

/// The file is the root or below it.
pub open spec fn belongs(disk: Disk, root: Seq<char>, file: Seq<char>) -> bool {
    file == root || is_below(disk, root, file)
}

/// The file can be read, and all of its child sheets are there.
pub open spec fn is_sound(disk: Disk, file: Seq<char>) -> bool {
    &&& disk.contains_key(file)
    &&& disk[file].has_name
    &&& !disk[file].locked
    &&& disk[file].children is Ok
    &&& forall|i: int|
        0 <= i < disk[file].children->Ok_0@.len() ==> #[trigger] disk[file].children->Ok_0@[i]
            is File
}

/// A file of the hierarchy cannot be read, has a child sheet that is not there,
/// or is below itself.
pub open spec fn is_faulty(disk: Disk, root: Seq<char>) -> bool {
    exists|file: Seq<char>| #[trigger]
        belongs(disk, root, file) && (!is_sound(disk, file) || is_below(disk, file, file))
}

/// The file has been visited with everything below it.
spec fn is_done(files: Seq<Seq<char>>, active: Seq<Seq<char>>, file: Seq<char>) -> bool {
    files.contains(file) && !active.contains(file)
}

/// A file that is done keeps away from the ones on the way, and from itself.
spec fn is_settled(
    disk: Disk,
    files: Seq<Seq<char>>,
    active: Seq<Seq<char>>,
    file: Seq<char>,
) -> bool {
    &&& is_sound(disk, file)
    &&& forall|b: Seq<char>| #[trigger] leads_to(disk, file, b) ==> files.contains(b)
    &&& forall|b: Seq<char>| #[trigger] active.contains(b) ==> !is_below(disk, file, b)
    &&& !is_below(disk, file, file)
}

/// Each file but the first has a parent before it.
pub open spec fn parents_come_first(disk: Disk, files: Seq<Seq<char>>) -> bool {
    forall|i: int| 0 < i < files.len() ==> #[trigger] has_earlier_parent(disk, files, i)
}

/// A file before this one has it as a child sheet.
pub open spec fn has_earlier_parent(disk: Disk, files: Seq<Seq<char>>, i: int) -> bool {
    exists|j: int| 0 <= j < i && leads_to(disk, #[trigger] files[j], files[i])
}

/// What holds at every moment of a walk.
spec fn holds(
    disk: Disk,
    root: Seq<char>,
    files: Seq<Seq<char>>,
    active: Seq<Seq<char>>,
) -> bool {
    &&& disk.dom().finite()
    &&& files.no_duplicates()
    &&& active.no_duplicates()
    &&& forall|a: Seq<char>| #[trigger]
        active.contains(a) ==> files.contains(a) && disk.contains_key(a)
    &&& forall|f: Seq<char>| #[trigger] files.contains(f) ==> belongs(disk, root, f)
    &&& forall|f: Seq<char>| #[trigger]
        is_done(files, active, f) ==> is_settled(disk, files, active, f)
    &&& parents_come_first(disk, files)
}

/// What holds of a file that is about to be visited.
spec fn is_next(
    disk: Disk,
    root: Seq<char>,
    files: Seq<Seq<char>>,
    active: Seq<Seq<char>>,
    file: Seq<char>,
) -> bool {
    &&& belongs(disk, root, file)
    &&& files.len() > 0 ==> active.len() > 0 && leads_to(disk, active.last(), file)
    &&& forall|a: Seq<char>| #[trigger] active.contains(a) ==> is_below(disk, a, file)
}

proof fn lemma_step_below(disk: Disk, a: Seq<char>, b: Seq<char>)
    requires
        leads_to(disk, a, b),
    ensures
        is_below(disk, a, b),
{
    let way = seq![a, b];
    assert(is_way(disk, way));
    assert(way[0] == a && way.last() == b);
}

proof fn lemma_further_below(disk: Disk, a: Seq<char>, b: Seq<char>, c: Seq<char>)
    requires
        is_below(disk, a, b),
        leads_to(disk, b, c),
    ensures
        is_below(disk, a, c),
{
    let way = choose|way: Seq<Seq<char>>| #[trigger]
        is_way(disk, way) && way[0] == a && way.last() == b;
    let longer = way.push(c);
    assert forall|i: int| 0 <= i < longer.len() - 1 implies leads_to(
        disk,
        #[trigger] longer[i],
        longer[i + 1],
    ) by {
        if i < way.len() - 1 {
            assert(leads_to(disk, way[i], way[i + 1]));
        }
    }
    assert(is_way(disk, longer));
    assert(longer[0] == a && longer.last() == c);
}

/// What is below a file is its child, or below one of its children.
proof fn lemma_first_step(disk: Disk, a: Seq<char>, b: Seq<char>) -> (child: Seq<char>)
    requires
        is_below(disk, a, b),
    ensures
        leads_to(disk, a, child),
        child == b || is_below(disk, child, b),
{
    let way = choose|way: Seq<Seq<char>>| #[trigger]
        is_way(disk, way) && way[0] == a && way.last() == b;
    let child = way[1];
    assert(leads_to(disk, way[0], way[1]));
    if way.len() > 2 {
        let rest = way.drop_first();
        assert forall|i: int| 0 <= i < rest.len() - 1 implies leads_to(
            disk,
            #[trigger] rest[i],
            rest[i + 1],
        ) by {
            assert(leads_to(disk, way[i + 1], way[i + 2]));
        }
        assert(is_way(disk, rest));
        assert(rest[0] == child && rest.last() == b);
    }
    child
}

/// What is below a file that is done is done too.
proof fn lemma_below_done(
    disk: Disk,
    root: Seq<char>,
    files: Seq<Seq<char>>,
    active: Seq<Seq<char>>,
    file: Seq<char>,
    way: Seq<Seq<char>>,
)
    requires
        holds(disk, root, files, active),
        is_done(files, active, file),
        is_way(disk, way),
        way[0] == file,
    ensures
        is_done(files, active, way.last()),
    decreases way.len(),
{
    let child = way[1];
    assert(leads_to(disk, way[0], way[1]));
    lemma_step_below(disk, file, child);
    assert(is_settled(disk, files, active, file));
    assert(files.contains(child));
    assert(is_done(files, active, child));
    if way.len() > 2 {
        let rest = way.drop_first();
        assert forall|i: int| 0 <= i < rest.len() - 1 implies leads_to(
            disk,
            #[trigger] rest[i],
            rest[i + 1],
        ) by {
            assert(leads_to(disk, way[i + 1], way[i + 2]));
        }
        lemma_below_done(disk, root, files, active, child, rest);
        assert(rest.last() == way.last());
    }
}

/// What is said of a list is said of it with one more member.
proof fn lemma_pushed(list: Seq<Seq<char>>, x: Seq<char>)
    ensures
        forall|y: Seq<char>| #[trigger]
            list.push(x).contains(y) <==> list.contains(y) || y == x,
{
    let more = list.push(x);
    assert forall|y: Seq<char>| #[trigger] more.contains(y) <==> list.contains(y) || y == x by {
        if list.contains(y) {
            assert(more[list.index_of(y)] == y);
        }
        if y == x {
            assert(more[list.len() as int] == y);
        }
        if more.contains(y) {
            let i = more.index_of(y);
            if i < list.len() {
                assert(list[i] == y);
            }
        }
    }
}

/// No more files can be on the way than there are.
proof fn lemma_room(disk: Disk, active: Seq<Seq<char>>)
    requires
        disk.dom().finite(),
        active.no_duplicates(),
        forall|a: Seq<char>| #[trigger] active.contains(a) ==> disk.contains_key(a),
    ensures
        active.len() <= disk.dom().len(),
{
    active.unique_seq_to_set();
    assert(active.to_set().subset_of(disk.dom())) by {
        assert forall|a: Seq<char>| active.to_set().contains(a) implies disk.dom().contains(a) by {
            assert(active.contains(a));
        }
    }
    vstd::set_lib::lemma_len_subset(active.to_set(), disk.dom());
}

/// A file that goes onto the way leaves everything in order.
proof fn lemma_entered(
    disk: Disk,
    root: Seq<char>,
    files: Seq<Seq<char>>,
    active: Seq<Seq<char>>,
    file: Seq<char>,
)
    requires
        holds(disk, root, files, active),
        is_next(disk, root, files, active, file),
        !files.contains(file),
        disk.contains_key(file),
    ensures
        holds(disk, root, files.push(file), active.push(file)),
{
    let (more, way) = (files.push(file), active.push(file));
    lemma_pushed(files, file);
    lemma_pushed(active, file);
    assert(!active.contains(file));
    assert forall|i: int, j: int| 0 <= i < j < more.len() implies more[i] != more[j] by {
        if j == files.len() {
            assert(files.contains(files[i]));
        }
    }
    assert(more.no_duplicates());
    assert forall|i: int, j: int| 0 <= i < j < way.len() implies way[i] != way[j] by {
        if j == active.len() {
            assert(active.contains(active[i]));
        }
    }
    assert(way.no_duplicates());
    assert forall|f: Seq<char>| #[trigger] is_done(more, way, f) implies is_settled(
        disk,
        more,
        way,
        f,
    ) by {
        assert(is_done(files, active, f));
        assert(is_settled(disk, files, active, f));
        assert forall|b: Seq<char>| #[trigger] leads_to(disk, f, b) implies more.contains(b) by {
            assert(files.contains(b));
        }
        assert forall|b: Seq<char>| #[trigger] way.contains(b) implies !is_below(disk, f, b) by {
            if b == file && is_below(disk, f, b) {
                let steps = choose|steps: Seq<Seq<char>>| #[trigger]
                    is_way(disk, steps) && steps[0] == f && steps.last() == b;
                lemma_below_done(disk, root, files, active, f, steps);
            } else if b != file {
                assert(active.contains(b));
            }
        }
    }
    assert forall|i: int| 0 < i < more.len() implies #[trigger] has_earlier_parent(
        disk,
        more,
        i,
    ) by {
        if i < files.len() {
            assert(has_earlier_parent(disk, files, i));
            let j = choose|j: int| 0 <= j < i && leads_to(disk, #[trigger] files[j], files[i]);
            assert(more[j] == files[j]);
            assert(more[i] == files[i]);
        } else {
            let parent = active.last();
            assert(active.contains(parent));
            let j = files.index_of(parent);
            assert(more[j] == parent);
            assert(leads_to(disk, more[j], more[i]));
        }
    }
    assert forall|f: Seq<char>| #[trigger] more.contains(f) implies belongs(disk, root, f) by {
        if f != file {
            assert(files.contains(f));
        }
    }
}

/// A file whose children have been visited is done.
proof fn lemma_left(
    disk: Disk,
    root: Seq<char>,
    files: Seq<Seq<char>>,
    active: Seq<Seq<char>>,
    file: Seq<char>,
)
    requires
        holds(disk, root, files, active.push(file)),
        !active.contains(file),
        is_sound(disk, file),
        forall|b: Seq<char>| #[trigger]
            leads_to(disk, file, b) ==> is_done(files, active.push(file), b),
    ensures
        holds(disk, root, files, active),
        is_done(files, active, file),
{
    let way = active.push(file);
    lemma_pushed(active, file);
    assert(way.contains(file));
    assert(active.no_duplicates()) by {
        assert forall|i: int, j: int| 0 <= i < j < active.len() implies active[i] != active[j] by {
            assert(way[i] == active[i] && way[j] == active[j]);
        }
    }
    assert forall|b: Seq<char>| way.contains(b) implies !#[trigger] is_below(disk, file, b) by {
        if is_below(disk, file, b) {
            let child = lemma_first_step(disk, file, b);
            assert(is_done(files, way, child));
            assert(is_settled(disk, files, way, child));
        }
    }
    assert forall|f: Seq<char>| #[trigger] is_done(files, active, f) implies is_settled(
        disk,
        files,
        active,
        f,
    ) by {
        if f == file {
            assert forall|b: Seq<char>| #[trigger] leads_to(disk, f, b) implies files.contains(
                b,
            ) by {
                assert(is_done(files, way, b));
            }
            assert forall|b: Seq<char>| #[trigger] active.contains(b) implies !is_below(
                disk,
                f,
                b,
            ) by {
                assert(way.contains(b));
            }
        } else {
            assert(is_done(files, way, f));
            assert(is_settled(disk, files, way, f));
            assert forall|b: Seq<char>| #[trigger] active.contains(b) implies !is_below(
                disk,
                f,
                b,
            ) by {
                assert(way.contains(b));
            }
        }
    }
    assert forall|a: Seq<char>| #[trigger] active.contains(a) implies files.contains(a)
        && disk.contains_key(a) by {
        assert(way.contains(a));
    }
}

/// What visiting a file comes to.
spec fn visit_ends_well(
    disk: Disk,
    root: Seq<char>,
    files: Seq<Seq<char>>,
    active: Seq<Seq<char>>,
    file: Seq<char>,
    outcome: Result<Seq<Seq<char>>, HierarchyFault>,
) -> bool {
    match outcome {
        Ok(list) => {
            &&& holds(disk, root, list, active)
            &&& is_done(list, active, file)
            &&& files.len() <= list.len()
            &&& list.take(files.len() as int) == files
            &&& !files.contains(file) ==> list.len() > files.len() && list[files.len() as int]
                == file
        },
        Err(_) => is_faulty(disk, root),
    }
}

proof fn lemma_visit(
    disk: Disk,
    root: Seq<char>,
    file: Seq<char>,
    files: Seq<Seq<char>>,
    active: Seq<Seq<char>>,
    left: nat,
)
    requires
        holds(disk, root, files, active),
        is_next(disk, root, files, active, file),
        left + active.len() == disk.dom().len(),
    ensures
        visit_ends_well(
            disk,
            root,
            files,
            active,
            file,
            visited(disk, file, files, active, left),
        ),
    decreases left, 0nat,
{
    assert(belongs(disk, root, file));
    if active.contains(file) {
        assert(is_below(disk, file, file));
    } else if files.contains(file) {
        assert(files.take(files.len() as int) =~= files);
    } else if disk.contains_key(file) && disk[file].has_name && !disk[file].locked
        && disk[file].children is Ok {
        let children = disk[file].children->Ok_0@;
        let (more, way) = (files.push(file), active.push(file));
        lemma_entered(disk, root, files, active, file);
        lemma_pushed(active, file);
        assert(disk.contains_key(file));
        lemma_room(disk, way);
        let n = children.len();
        lemma_children(disk, root, file, more, way, (left - 1) as nat, n);
        match children_visited(disk, file, children, more, way, (left - 1) as nat, n) {
            Ok(list) => {
                assert forall|i: int| 0 <= i < children.len() implies #[trigger] children[i]
                    is File by {
                    assert(child_is_done(children, list, way, i));
                }
                assert forall|b: Seq<char>| #[trigger] leads_to(disk, file, b) implies is_done(
                    list,
                    way,
                    b,
                ) by {
                    let i = choose|i: int|
                        0 <= i < children.len() && (#[trigger] children[i]
                            matches ChildSheet::File { file: own } && own@ == b);
                    assert(child_is_done(children, list, way, i));
                }
                lemma_left(disk, root, list, active, file);
                assert(list.take(files.len() as int) =~= files) by {
                    assert forall|i: int| 0 <= i < files.len() implies #[trigger] list[i]
                        == files[i] by {
                        assert(list.take(more.len() as int)[i] == more[i]);
                    }
                }
                assert(list.take(more.len() as int)[files.len() as int] == file);
            },
            Err(_) => {},
        }
    } else {
        assert(!is_sound(disk, file));
    }
}

/// The child is a file that is done.
spec fn child_is_done(
    children: Seq<ChildSheet>,
    files: Seq<Seq<char>>,
    active: Seq<Seq<char>>,
    i: int,
) -> bool {
    children[i] matches ChildSheet::File { file } && is_done(files, active, file@)
}

proof fn lemma_children(
    disk: Disk,
    root: Seq<char>,
    file: Seq<char>,
    files: Seq<Seq<char>>,
    active: Seq<Seq<char>>,
    left: nat,
    n: nat,
)
    requires
        holds(disk, root, files, active),
        disk.contains_key(file),
        disk[file].children is Ok,
        n <= disk[file].children->Ok_0@.len(),
        belongs(disk, root, file),
        active.len() > 0,
        active.last() == file,
        forall|a: Seq<char>| #[trigger] active.contains(a) ==> a == file || is_below(disk, a, file),
        left + active.len() == disk.dom().len(),
    ensures
        ({
            let children = disk[file].children->Ok_0@;
            match children_visited(disk, file, children, files, active, left, n) {
                Ok(list) => {
                    &&& holds(disk, root, list, active)
                    &&& files.len() <= list.len()
                    &&& list.take(files.len() as int) == files
                    &&& forall|i: int|
                        0 <= i < n ==> #[trigger] child_is_done(children, list, active, i)
                },
                Err(_) => is_faulty(disk, root),
            }
        }),
    decreases left, n,
{
    let children = disk[file].children->Ok_0@;
    if n == 0 {
        assert(files.take(files.len() as int) =~= files);
    } else {
        lemma_children(disk, root, file, files, active, left, (n - 1) as nat);
        match children_visited(disk, file, children, files, active, left, (n - 1) as nat) {
            Err(_) => {},
            Ok(list) => match children[n - 1] {
                ChildSheet::File { file: child } => {
                    assert(leads_to(disk, file, child@));
                    lemma_step_below(disk, file, child@);
                    if file != root {
                        lemma_further_below(disk, root, file, child@);
                    }
                    assert forall|a: Seq<char>| #[trigger] active.contains(a) implies is_below(
                        disk,
                        a,
                        child@,
                    ) by {
                        if a != file {
                            lemma_further_below(disk, a, file, child@);
                        }
                    }
                    lemma_visit(disk, root, child@, list, active, left);
                    match visited(disk, child@, list, active, left) {
                        Ok(after) => {
                            assert(after.take(files.len() as int) =~= files) by {
                                assert forall|i: int| 0 <= i < files.len() implies
                                    #[trigger] after[i] == files[i] by {
                                    assert(after.take(list.len() as int)[i] == list[i]);
                                    assert(list.take(files.len() as int)[i] == files[i]);
                                }
                            }
                            assert forall|i: int| 0 <= i < n implies #[trigger] child_is_done(
                                children,
                                after,
                                active,
                                i,
                            ) by {
                                if i < n - 1 {
                                    assert(child_is_done(children, list, active, i));
                                    let own = children[i]->File_file@;
                                    let k = list.index_of(own);
                                    assert(after.take(list.len() as int)[k] == list[k]);
                                    assert(after[k] == own);
                                }
                            }
                        },
                        Err(_) => {},
                    }
                },
                _ => {
                    assert(!is_sound(disk, file)) by {
                        assert(!(disk[file].children->Ok_0@[n - 1] is File));
                    }
                },
            },
        }
    }
}

/// A hierarchy that is read lists the root first, holds exactly the root and
/// the files below it, each once, and lists a parent before the file that was
/// reached through it. Every file in it could be read, and none is below itself.
pub proof fn law_a_read_hierarchy_is_complete(disk: Disk, root: Seq<char>)
    requires
        disk.dom().finite(),
    ensures
        hierarchy_of(disk, root) matches Ok(files) ==> {
            &&& files.len() > 0 && files[0] == root
            &&& files.no_duplicates()
            &&& forall|f: Seq<char>| #[trigger] files.contains(f) <==> belongs(disk, root, f)
            &&& parents_come_first(disk, files)
            &&& !is_faulty(disk, root)
        },
{
    lemma_walk(disk, root);
    match hierarchy_of(disk, root) {
        Ok(files) => {
            let none = Seq::<Seq<char>>::empty();
            assert(is_done(files, none, root));
            assert forall|f: Seq<char>| belongs(disk, root, f) implies #[trigger] files.contains(
                f,
            ) by {
                if f != root {
                    let way = choose|way: Seq<Seq<char>>| #[trigger]
                        is_way(disk, way) && way[0] == root && way.last() == f;
                    lemma_below_done(disk, root, files, none, root, way);
                }
            }
            if is_faulty(disk, root) {
                let f = choose|f: Seq<char>| #[trigger]
                    belongs(disk, root, f) && (!is_sound(disk, f) || is_below(disk, f, f));
                assert(files.contains(f));
                assert(is_done(files, none, f));
                assert(is_settled(disk, files, none, f));
            }
        },
        Err(_) => {},
    }
}

/// A hierarchy is refused exactly if one of its files cannot be read, has a
/// child sheet that is not there, or is below itself.
pub proof fn law_only_faulty_hierarchies_are_refused(disk: Disk, root: Seq<char>)
    requires
        disk.dom().finite(),
    ensures
        hierarchy_of(disk, root) is Err <==> is_faulty(disk, root),
{
    lemma_walk(disk, root);
    law_a_read_hierarchy_is_complete(disk, root);
}

proof fn lemma_walk(disk: Disk, root: Seq<char>)
    requires
        disk.dom().finite(),
    ensures
        visit_ends_well(
            disk,
            root,
            Seq::empty(),
            Seq::empty(),
            root,
            hierarchy_of(disk, root),
        ),
{
    let none = Seq::<Seq<char>>::empty();
    assert(holds(disk, root, none, none)) by {
        assert forall|f: Seq<char>| #[trigger] is_done(none, none, f) implies is_settled(
            disk,
            none,
            none,
            f,
        ) by {}
    }
    lemma_visit(disk, root, root, none, none, disk.dom().len());
}

} // verus!
