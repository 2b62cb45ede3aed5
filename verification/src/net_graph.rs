//! Which points of a sheet are on the same net: a union-find graph whose nodes
//! are places in micrometres.

use crate::geometry::{lemma_pair_numbers_differ, micro, pair_key, pair_number, pt_key, Wire};
use crate::text::{owned, text_eq};
use std::collections::HashMap;
use vstd::prelude::*;
use vstd::string::*;

verus! {

broadcast use vstd::std_specs::hash::group_hash_axioms;

/// The number of a node.
spec fn node_number(node: (i64, i64)) -> i128 {
    pair_number((node.0 as int, node.1 as int)) as i128
}

proof fn lemma_node_numbers(a: (i64, i64), b: (i64, i64))
    ensures
        node_number(a) == node_number(b) ==> a == b,
        node_number(a) == pair_number((a.0 as int, a.1 as int)),
{
    if node_number(a) == node_number(b) {
        lemma_pair_numbers_differ((a.0 as int, a.1 as int), (b.0 as int, b.1 as int));
    }
}

/// The nodes of a sheet, each with the one that stands for its net, and the
/// names that labels give to nodes.
pub struct NetGraph {
    index: HashMap<i128, usize>,
    nodes: Vec<(i64, i64)>,
    parent: Vec<usize>,
    labels: Vec<(usize, String)>,
    roots: Ghost<Seq<int>>,
    depth: Ghost<Seq<nat>>,
}

#[verifier::opaque]
spec fn index_holds(index: Map<i128, usize>, nodes: Seq<(i64, i64)>) -> bool {
    &&& forall|i: int|
        0 <= i < nodes.len() ==> index.contains_key(node_number(#[trigger] nodes[i]))
            && index[node_number(nodes[i])] == i
    &&& forall|key: i128| #[trigger]
        index.contains_key(key) ==> index[key] < nodes.len() && node_number(
            nodes[index[key] as int],
        ) == key
}

/// The position has its parent on the way to its root.
spec fn node_holds(parent: Seq<usize>, roots: Seq<int>, depth: Seq<nat>, i: int) -> bool {
    &&& parent[i] < parent.len()
    &&& 0 <= roots[i] < parent.len()
    &&& roots[roots[i]] == roots[i]
    &&& parent[roots[i]] == roots[i]
    &&& roots[parent[i] as int] == roots[i]
    &&& parent[i] != i ==> depth[parent[i] as int] < depth[i]
    &&& parent[i] == i ==> roots[i] == i
}

spec fn forest_holds(parent: Seq<usize>, roots: Seq<int>, depth: Seq<nat>) -> bool {
    &&& roots.len() == parent.len()
    &&& depth.len() == parent.len()
    &&& forall|i: int| 0 <= i < parent.len() ==> #[trigger] node_holds(parent, roots, depth, i)
}

/// What the forest says of one position.
proof fn lemma_forest(graph: NetGraph, i: int)
    requires
        graph.valid(),
        0 <= i < graph.nodes@.len(),
    ensures
        graph.roots@.len() == graph.nodes@.len(),
        0 <= graph.roots@[i] < graph.nodes@.len(),
        graph.roots@[graph.roots@[i]] == graph.roots@[i],
{
    assert(node_holds(graph.parent@, graph.roots@, graph.depth@, i));
}

spec fn labels_hold(labels: Seq<(usize, String)>, count: nat) -> bool {
    &&& forall|i: int| 0 <= i < labels.len() ==> (#[trigger] labels[i]).0 < count
    &&& forall|i: int, j: int|
        0 <= i < j < labels.len() ==> (#[trigger] labels[i]).0 != (#[trigger] labels[j]).0
}

impl NetGraph {
    /// The nodes of the graph.
    pub closed spec fn keys(self) -> Seq<(i64, i64)> {
        self.nodes@
    }

    /// The node is in the graph.
    pub open spec fn has(self, k: (i64, i64)) -> bool {
        self.keys().contains(k)
    }

    /// The node that stands for the net of a node. One that is not in the graph
    /// stands for itself.
    pub closed spec fn root(self, k: (i64, i64)) -> (i64, i64) {
        if self.nodes@.contains(k) {
            self.nodes@[self.roots@[self.nodes@.index_of(k)]]
        } else {
            k
        }
    }

    /// The node carries a label.
    pub closed spec fn labelled(self, k: (i64, i64)) -> bool {
        exists|i: int|
            0 <= i < self.labels@.len() && self.nodes@[(#[trigger] self.labels@[i]).0 as int] == k
    }

    spec fn label_of(self, k: (i64, i64)) -> int {
        choose|i: int|
            0 <= i < self.labels@.len() && self.nodes@[(#[trigger] self.labels@[i]).0 as int] == k
    }

    /// The name that a label gives to a node.
    pub closed spec fn name(self, k: (i64, i64)) -> Seq<char> {
        self.labels@[self.label_of(k)].1@
    }

    /// The graph is in order.
    pub closed spec fn valid(self) -> bool {
        &&& self.nodes@.len() == self.parent@.len()
        &&& index_holds(self.index@, self.nodes@)
        &&& forest_holds(self.parent@, self.roots@, self.depth@)
        &&& labels_hold(self.labels@, self.nodes@.len())
    }

    #[verifier::type_invariant]
    pub open spec fn inv(self) -> bool {
        self.valid()
    }

    /// Two nodes are on the same net.
    pub open spec fn connected(self, a: (i64, i64), b: (i64, i64)) -> bool {
        self.root(a) == self.root(b)
    }

    /// The two graphs say the same of which nodes are on the same net, and
    /// their labels are the same.
    pub open spec fn same_nets(self, other: NetGraph) -> bool {
        &&& forall|k: (i64, i64)| #[trigger] self.root(k) == other.root(k)
        &&& self.same_labels(other)
    }

    /// The labels of the two graphs are the same.
    pub open spec fn same_labels(self, other: NetGraph) -> bool {
        &&& forall|k: (i64, i64)| #[trigger] self.labelled(k) == other.labelled(k)
        &&& forall|k: (i64, i64)|
            #![trigger self.name(k)]
            self.labelled(k) ==> self.name(k) == other.name(k)
    }

    /// The graph without nodes.
    pub fn new() -> (res: NetGraph)
        ensures
            res.valid(),
            res.keys().len() == 0,
            forall|k: (i64, i64)| #[trigger] res.root(k) == k,
            forall|k: (i64, i64)| !#[trigger] res.labelled(k),
    {
        proof {
            reveal(index_holds);
        }
        NetGraph {
            index: HashMap::new(),
            nodes: Vec::new(),
            parent: Vec::new(),
            labels: Vec::new(),
            roots: Ghost(Seq::empty()),
            depth: Ghost(Seq::empty()),
        }
    }
}

proof fn lemma_position(graph: NetGraph, i: int)
    requires
        graph.valid(),
        0 <= i < graph.nodes@.len(),
    ensures
        graph.nodes@.contains(graph.nodes@[i]),
        graph.nodes@.index_of(graph.nodes@[i]) == i,
        graph.root(graph.nodes@[i]) == graph.nodes@[graph.roots@[i]],
{
    reveal(index_holds);
    let j = graph.nodes@.index_of(graph.nodes@[i]);
    assert(graph.nodes@[j] == graph.nodes@[i]);
    assert(graph.index@[node_number(graph.nodes@[j])] == j);
}

/// The label of a node is the only one it has.
proof fn lemma_label(graph: NetGraph, i: int)
    requires
        graph.valid(),
        0 <= i < graph.labels@.len(),
    ensures
        graph.labelled(graph.nodes@[graph.labels@[i].0 as int]),
        graph.name(graph.nodes@[graph.labels@[i].0 as int]) == graph.labels@[i].1@,
{
    let k = graph.nodes@[graph.labels@[i].0 as int];
    assert(graph.labels@[i].0 < graph.nodes@.len());
    let j = graph.label_of(k);
    lemma_position(graph, graph.labels@[i].0 as int);
    lemma_position(graph, graph.labels@[j].0 as int);
    if i < j {
        assert(graph.labels@[i].0 != graph.labels@[j].0);
    } else if j < i {
        assert(graph.labels@[j].0 != graph.labels@[i].0);
    }
}

/// Graphs with the same nodes and the same labels name the same nodes alike.
proof fn lemma_same_labels(a: NetGraph, b: NetGraph)
    requires
        a.valid(),
        b.valid(),
        a.labels@ == b.labels@,
        forall|i: int| 0 <= i < a.nodes@.len() ==> #[trigger] b.nodes@[i] == a.nodes@[i],
        a.nodes@.len() <= b.nodes@.len(),
    ensures
        a.same_labels(b),
{
    assert forall|k: (i64, i64)| #[trigger] a.labelled(k) == b.labelled(k) by {
        if a.labelled(k) {
            let i = choose|i: int|
                0 <= i < a.labels@.len() && a.nodes@[(#[trigger] a.labels@[i]).0 as int] == k;
            assert(b.nodes@[b.labels@[i].0 as int] == k);
        }
        if b.labelled(k) {
            let i = choose|i: int|
                0 <= i < b.labels@.len() && b.nodes@[(#[trigger] b.labels@[i]).0 as int] == k;
            assert(a.labels@[i].0 < a.nodes@.len());
            assert(a.nodes@[a.labels@[i].0 as int] == k);
        }
    }
    assert forall|k: (i64, i64)| #![trigger a.name(k)] a.labelled(k) implies a.name(k)
        == b.name(k) by {
        let i = choose|i: int|
            0 <= i < a.labels@.len() && a.nodes@[(#[trigger] a.labels@[i]).0 as int] == k;
        assert(a.labels@[i].0 < a.nodes@.len());
        assert(b.nodes@[a.labels@[i].0 as int] == a.nodes@[a.labels@[i].0 as int]);
        lemma_label(a, i);
        lemma_label(b, i);
    }
}

impl NetGraph {
    /// The position of a node, which is added where it is missing.
    fn place(&mut self, k: (i64, i64)) -> (res: usize)
        ensures
            final(self).valid(),
            res < final(self).nodes@.len(),
            final(self).nodes@[res as int] == k,
            old(self).nodes@.len() <= final(self).nodes@.len(),
            forall|x: (i64, i64)| #[trigger]
                final(self).has(x) <==> (old(self).has(x) || x == k),
            final(self).same_nets(*old(self)),
            final(self).labels@ == old(self).labels@,
            forall|i: int|
                0 <= i < old(self).nodes@.len() ==> #[trigger] final(self).nodes@[i] == old(
                    self,
                ).nodes@[i],
            forall|i: int|
                0 <= i < old(self).nodes@.len() ==> #[trigger] final(self).roots@[i] == old(
                    self,
                ).roots@[i],
    {
        proof {
            reveal(index_holds);
        }
        proof {
            use_type_invariant(&*self);
        }
        let ghost before = *self;
        let key: i128 = pair_key(k.0, k.1);
        assert(key == node_number(k));
        if let Some(found) = self.index.get(&key) {
            let position: usize = *found;
            proof {
                lemma_node_numbers(self.nodes@[position as int], k);
                assert(self.nodes@.contains(k));
            }
            return position;
        }
        let position: usize = self.nodes.len();
        proof {
            if before.nodes@.contains(k) {
                let i = before.nodes@.index_of(k);
                assert(before.index@.contains_key(node_number(before.nodes@[i])));
            }
        }
        let mut fresh = NetGraph::new();
        std::mem::swap(&mut fresh, self);
        let NetGraph {
            index: mut index,
            nodes: mut nodes,
            parent: mut parent,
            labels,
            roots,
            depth,
        } = fresh;
        index.insert(key, position);
        nodes.push(k);
        parent.push(position);
        let ghost new_roots = roots@.push(position as int);
        let ghost new_depth = depth@.push(0);
        proof {
            assert forall|i: int| 0 <= i < parent@.len() implies #[trigger] node_holds(
                parent@,
                new_roots,
                new_depth,
                i,
            ) by {
                if i < position {
                    assert(node_holds(before.parent@, before.roots@, before.depth@, i));
                }
            }
        }
        let graph = NetGraph {
            index,
            nodes,
            parent,
            labels,
            roots: Ghost(new_roots),
            depth: Ghost(new_depth),
        };
        *self = graph;
        proof {
            assert forall|x: (i64, i64)| #[trigger]
                self.has(x) <==> (before.has(x) || x == k) by {
                if before.has(x) {
                    let i = before.nodes@.index_of(x);
                    assert(self.nodes@[i] == x);
                }
                if x == k {
                    assert(self.nodes@[position as int] == x);
                }
            }
            assert forall|x: (i64, i64)| #[trigger] self.root(x) == before.root(x) by {
                assert(self.has(x) <==> (before.has(x) || x == k));
                if before.has(x) {
                    let i = before.nodes@.index_of(x);
                    assert(self.nodes@[i] == x);
                    lemma_position(*self, i);
                    lemma_position(before, i);
                    assert(self.roots@[i] == before.roots@[i]);
                    lemma_forest(before, i);
                } else if x == k {
                    lemma_position(*self, position as int);
                }
            }
            lemma_same_labels(before, *self);
            lemma_labels_symmetric(before, *self);
        }
        position
    }

    /// Adds a node where it is missing.
    pub fn ensure(&mut self, k: (i64, i64))
        ensures
            final(self).valid(),
            forall|x: (i64, i64)| #[trigger]
                final(self).has(x) <==> (old(self).has(x) || x == k),
            final(self).same_nets(*old(self)),
    {
        self.place(k);
    }

    /// The position of the root above a position. The nodes on the way are put
    /// directly below it.
    fn climb(&mut self, start: usize) -> (res: usize)
        requires
            start < old(self).nodes@.len(),
        ensures
            final(self).valid(),
            final(self).nodes@ == old(self).nodes@,
            final(self).labels@ == old(self).labels@,
            final(self).roots@ == old(self).roots@,
            res == old(self).roots@[start as int],
    {
        proof {
            use_type_invariant(&*self);
        }
        let mut fresh = NetGraph::new();
        std::mem::swap(&mut fresh, self);
        let ghost before = fresh;
        let NetGraph { index, nodes, parent: mut parent, labels, roots, depth } = fresh;
        let mut top: usize = start;
        assert(node_holds(parent@, roots@, depth@, start as int));
        while parent[top] != top
            invariant
                forest_holds(parent@, roots@, depth@),
                top < parent@.len(),
                start < parent@.len(),
                roots@[top as int] == roots@[start as int],
            decreases depth@[top as int],
        {
            assert(node_holds(parent@, roots@, depth@, top as int));
            top = parent[top];
        }
        assert(node_holds(parent@, roots@, depth@, top as int));
        let mut current: usize = start;
        while parent[current] != top && current != top
            invariant
                forest_holds(parent@, roots@, depth@),
                parent@.len() == before.parent@.len(),
                current < parent@.len(),
                top < parent@.len(),
                roots@[top as int] == top,
                parent@[top as int] == top,
                roots@[current as int] == top,
            decreases depth@[current as int],
        {
            let next: usize = parent[current];
            proof {
                assert(node_holds(parent@, roots@, depth@, current as int));
                lemma_root_is_shallow(parent@, roots@, depth@, current as int);
            }
            let ghost old_parent = parent@;
            parent.set(current, top);
            proof {
                lemma_shortcut(old_parent, parent@, roots@, depth@, current as int, top);
            }
            current = next;
        }
        let graph = NetGraph { index, nodes, parent, labels, roots, depth };
        *self = graph;
        top
    }

    /// The positions of a node, which is added where it is missing, and of the
    /// root above it.
    fn locate(&mut self, k: (i64, i64)) -> (res: (usize, usize))
        ensures
            final(self).valid(),
            res.0 < final(self).nodes@.len(),
            res.1 < final(self).nodes@.len(),
            final(self).nodes@[res.0 as int] == k,
            final(self).roots@[res.0 as int] == res.1,
            old(self).nodes@.len() <= final(self).nodes@.len(),
            forall|x: (i64, i64)| #[trigger]
                final(self).has(x) <==> (old(self).has(x) || x == k),
            final(self).same_nets(*old(self)),
            forall|i: int|
                0 <= i < old(self).nodes@.len() ==> #[trigger] final(self).nodes@[i] == old(
                    self,
                ).nodes@[i],
            forall|i: int|
                0 <= i < old(self).nodes@.len() ==> #[trigger] final(self).roots@[i] == old(
                    self,
                ).roots@[i],
    {
        let ghost start = *self;
        let position: usize = self.place(k);
        let ghost middle = *self;
        let top: usize = self.climb(position);
        proof {
            lemma_same_structure(middle, *self);
            lemma_same_nets_chain(start, middle, *self);
            lemma_forest(*self, position as int);
        }
        (position, top)
    }

    /// The node that stands for the net of a node, which is added where it is
    /// missing.
    pub fn find(&mut self, k: (i64, i64)) -> (res: (i64, i64))
        ensures
            final(self).valid(),
            res == old(self).root(k),
            final(self).has(res),
            forall|x: (i64, i64)| #[trigger]
                final(self).has(x) <==> (old(self).has(x) || x == k),
            final(self).same_nets(*old(self)),
    {
        let ghost start = *self;
        let (position, top) = self.locate(k);
        proof {
            lemma_position(*self, position as int);
            lemma_position(*self, top as int);
            assert(self.root(k) == start.root(k));
        }
        self.nodes[top]
    }

    /// Puts two nodes on the same net. The root of the first stands for it.
    pub fn union(&mut self, a: (i64, i64), b: (i64, i64))
        ensures
            final(self).valid(),
            forall|x: (i64, i64)| #[trigger]
                final(self).has(x) <==> (old(self).has(x) || x == a || x == b),
            joins(*old(self), *final(self), a, b),
            final(self).same_labels(*old(self)),
    {
        let ghost start = *self;
        let (first, upper) = self.locate(a);
        let ghost one = *self;
        let (second, lower) = self.locate(b);
        let ghost two = *self;
        proof {
            assert(two.nodes@[first as int] == one.nodes@[first as int]);
            assert(two.roots@[first as int] == one.roots@[first as int]);
            lemma_same_nets_chain(start, one, two);
            lemma_position(two, first as int);
            lemma_position(two, second as int);
            lemma_forest(two, first as int);
            lemma_forest(two, second as int);
            assert forall|x: (i64, i64)| #[trigger]
                two.has(x) <==> (start.has(x) || x == a || x == b) by {
                assert(one.has(x) <==> (start.has(x) || x == a));
            }
        }
        if upper != lower {
            self.merge(upper, lower);
            proof {
                lemma_merged(two, *self, first as int, second as int);
                lemma_labels_chain(start, two, *self);
            }
        }
        proof {
            lemma_joins_from(start, two, *self, a, b);
        }
    }

    /// Puts one root below another.
    fn merge(&mut self, upper: usize, lower: usize)
        requires
            upper != lower,
            upper < old(self).nodes@.len(),
            lower < old(self).nodes@.len(),
            old(self).roots@[upper as int] == upper,
            old(self).roots@[lower as int] == lower,
        ensures
            final(self).valid(),
            final(self).nodes@ == old(self).nodes@,
            final(self).labels@ == old(self).labels@,
            final(self).roots@ == merged_roots(old(self).roots@, upper as int, lower as int),
    {
        proof {
            use_type_invariant(&*self);
        }
        let mut fresh = NetGraph::new();
        std::mem::swap(&mut fresh, self);
        let NetGraph { index, nodes, parent: mut parent, labels, roots, depth } = fresh;
        let ghost old_parent = parent@;
        parent.set(lower, upper);
        let ghost new_roots = merged_roots(roots@, upper as int, lower as int);
        let ghost new_depth = merged_depth(roots@, depth@, upper as int, lower as int);
        proof {
            assert(node_holds(old_parent, roots@, depth@, upper as int));
            assert(node_holds(old_parent, roots@, depth@, lower as int));
            assert forall|i: int| 0 <= i < parent@.len() implies #[trigger] node_holds(
                parent@,
                new_roots,
                new_depth,
                i,
            ) by {
                assert(node_holds(old_parent, roots@, depth@, i));
                assert(node_holds(old_parent, roots@, depth@, old_parent[i] as int));
                assert(node_holds(old_parent, roots@, depth@, roots@[i]));
            }
            assert(forest_holds(parent@, new_roots, new_depth));
        }
        let graph = NetGraph {
            index,
            nodes,
            parent,
            labels,
            roots: Ghost(new_roots),
            depth: Ghost(new_depth),
        };
        *self = graph;
    }
}

/// Joining in a graph that says the same joins in the first one too.
proof fn lemma_joins_from(
    start: NetGraph,
    middle: NetGraph,
    after: NetGraph,
    a: (i64, i64),
    b: (i64, i64),
)
    requires
        middle.same_nets(start),
        joins(middle, after, a, b) || (after == middle && middle.root(a) == middle.root(b)),
    ensures
        joins(start, after, a, b),
{
    assert forall|x: (i64, i64)| #[trigger]
        after.root(x) == (if start.root(x) == start.root(b) {
            start.root(a)
        } else {
            start.root(x)
        }) by {
        assert(middle.root(x) == start.root(x));
        assert(middle.root(a) == start.root(a));
        assert(middle.root(b) == start.root(b));
    }
}

/// Merging the roots of two nodes puts these on the same net.
proof fn lemma_merged(before: NetGraph, after: NetGraph, first: int, second: int)
    requires
        before.valid(),
        after.valid(),
        0 <= first < before.nodes@.len(),
        0 <= second < before.nodes@.len(),
        before.roots@[first] != before.roots@[second],
        after.nodes@ == before.nodes@,
        after.labels@ == before.labels@,
        after.roots@ == merged_roots(before.roots@, before.roots@[first], before.roots@[second]),
    ensures
        joins(before, after, before.nodes@[first], before.nodes@[second]),
        after.same_labels(before),
        forall|x: (i64, i64)| #[trigger] after.has(x) == before.has(x),
{
    let (a, b) = (before.nodes@[first], before.nodes@[second]);
    let (top, low) = (before.roots@[first], before.roots@[second]);
    lemma_position(before, first);
    lemma_position(before, second);
    lemma_forest(before, first);
    lemma_forest(before, second);
    lemma_position(before, top);
    lemma_position(before, low);
    assert forall|x: (i64, i64)| #[trigger]
        after.root(x) == (if before.root(x) == before.root(b) {
            before.root(a)
        } else {
            before.root(x)
        }) by {
        if before.nodes@.contains(x) {
            let i = before.nodes@.index_of(x);
            lemma_position(before, i);
            lemma_position(after, i);
            lemma_forest(before, i);
            lemma_position(before, before.roots@[i]);
        } else {
            assert(before.nodes@.contains(before.root(b)));
        }
    }
    lemma_same_labels(before, after);
    lemma_labels_symmetric(before, after);
}

/// The second graph is the first one with two nodes put on the same net, for
/// which the root of the first of them stands.
pub open spec fn joins(before: NetGraph, after: NetGraph, a: (i64, i64), b: (i64, i64)) -> bool {
    forall|x: (i64, i64)| #[trigger]
        after.root(x) == (if before.root(x) == before.root(b) {
            before.root(a)
        } else {
            before.root(x)
        })
}

spec fn merged_roots(roots: Seq<int>, a: int, b: int) -> Seq<int> {
    Seq::new(
        roots.len(),
        |i: int|
            if roots[i] == b {
                a
            } else {
                roots[i]
            },
    )
}

spec fn merged_depth(roots: Seq<int>, depth: Seq<nat>, a: int, b: int) -> Seq<nat> {
    Seq::new(
        depth.len(),
        |i: int|
            if roots[i] == b {
                depth[i] + depth[a] + 1
            } else {
                depth[i]
            },
    )
}

/// The root above a position is nearer to the top.
proof fn lemma_root_is_shallow(parent: Seq<usize>, roots: Seq<int>, depth: Seq<nat>, i: int)
    requires
        forest_holds(parent, roots, depth),
        0 <= i < parent.len(),
    ensures
        roots[i] != i ==> depth[roots[i]] < depth[i],
    decreases depth[i],
{
    assert(node_holds(parent, roots, depth, i));
    if parent[i] != i {
        assert(node_holds(parent, roots, depth, parent[i] as int));
        lemma_root_is_shallow(parent, roots, depth, parent[i] as int);
    }
}

/// A node may be put directly below its root.
proof fn lemma_shortcut(
    before: Seq<usize>,
    after: Seq<usize>,
    roots: Seq<int>,
    depth: Seq<nat>,
    i: int,
    top: usize,
)
    requires
        forest_holds(before, roots, depth),
        0 <= i < before.len(),
        roots[i] == top,
        top != i,
        depth[top as int] < depth[i],
        after == before.update(i, top),
    ensures
        forest_holds(after, roots, depth),
{
    assert(node_holds(before, roots, depth, i));
    assert forall|j: int| 0 <= j < after.len() implies #[trigger] node_holds(
        after,
        roots,
        depth,
        j,
    ) by {
        assert(node_holds(before, roots, depth, j));
        assert(node_holds(before, roots, depth, roots[j]));
    }
}

proof fn lemma_labels_symmetric(a: NetGraph, b: NetGraph)
    requires
        a.same_labels(b),
    ensures
        b.same_labels(a),
{
    assert forall|k: (i64, i64)| #[trigger] b.labelled(k) == a.labelled(k) by {
        assert(a.labelled(k) == b.labelled(k));
    }
    assert forall|k: (i64, i64)| #![trigger b.name(k)] b.labelled(k) implies b.name(k)
        == a.name(k) by {
        assert(a.labelled(k) == b.labelled(k));
        assert(a.name(k) == b.name(k));
    }
}

pub proof fn lemma_labels_chain(a: NetGraph, b: NetGraph, c: NetGraph)
    requires
        b.same_labels(a),
        c.same_labels(b),
    ensures
        c.same_labels(a),
{
    assert forall|k: (i64, i64)| #[trigger] c.labelled(k) == a.labelled(k) by {
        assert(b.labelled(k) == a.labelled(k));
    }
    assert forall|k: (i64, i64)| #![trigger c.name(k)] c.labelled(k) implies c.name(k)
        == a.name(k) by {
        assert(c.labelled(k) == b.labelled(k));
        assert(b.name(k) == a.name(k));
    }
}

pub proof fn lemma_same_nets_chain(a: NetGraph, b: NetGraph, c: NetGraph)
    requires
        b.same_nets(a),
        c.same_nets(b),
    ensures
        c.same_nets(a),
{
    assert forall|k: (i64, i64)| #[trigger] c.root(k) == a.root(k) by {
        assert(b.root(k) == a.root(k));
    }
    lemma_labels_chain(a, b, c);
}

/// Graphs with the same nodes, roots and labels say the same.
proof fn lemma_same_structure(a: NetGraph, b: NetGraph)
    requires
        a.valid(),
        b.valid(),
        b.nodes@ == a.nodes@,
        b.roots@ == a.roots@,
        b.labels@ == a.labels@,
    ensures
        b.same_nets(a),
        forall|x: (i64, i64)| #[trigger] b.has(x) == a.has(x),
{
    lemma_same_labels(a, b);
    lemma_labels_symmetric(a, b);
}

/// The labels of the second graph are those of the first with one more, which
/// takes the place of the one that its node had.
pub open spec fn gains_label(
    before: NetGraph,
    after: NetGraph,
    k: (i64, i64),
    net: Seq<char>,
) -> bool {
    &&& forall|x: (i64, i64)| #[trigger] after.labelled(x) <==> (before.labelled(x) || x == k)
    &&& forall|x: (i64, i64)|
        #![trigger after.name(x)]
        after.labelled(x) ==> after.name(x) == (if x == k {
            net
        } else {
            before.name(x)
        })
}

/// A label on the net of the node gives it this name.
pub open spec fn named_at(graph: NetGraph, k: (i64, i64), net: Seq<char>) -> bool {
    exists|x: (i64, i64)| #[trigger]
        graph.labelled(x) && graph.connected(x, k) && graph.name(x) == net
}

/// No label is on the net of the node.
pub open spec fn unnamed_at(graph: NetGraph, k: (i64, i64)) -> bool {
    forall|x: (i64, i64)| #[trigger] graph.labelled(x) ==> !graph.connected(x, k)
}

impl NetGraph {
    /// Puts the ends of a wire on the same net.
    pub fn add_wire(&mut self, wire: &Wire)
        ensures
            final(self).valid(),
            joins(
                *old(self),
                *final(self),
                micro(wire.x1 as int, wire.y1 as int),
                micro(wire.x2 as int, wire.y2 as int),
            ),
            final(self).same_labels(*old(self)),
            forall|x: (i64, i64)| #[trigger]
                final(self).has(x) <==> (old(self).has(x) || x == micro(
                    wire.x1 as int,
                    wire.y1 as int,
                ) || x == micro(wire.x2 as int, wire.y2 as int)),
    {
        let a = pt_key(wire.x1, wire.y1);
        let b = pt_key(wire.x2, wire.y2);
        self.union(a, b);
    }

    /// Gives a place a name, in place of the one it had.
    pub fn add_label(&mut self, x: i64, y: i64, net: &str)
        ensures
            final(self).valid(),
            forall|k: (i64, i64)| #[trigger] final(self).root(k) == old(self).root(k),
            forall|k: (i64, i64)| #[trigger]
                final(self).has(k) <==> (old(self).has(k) || k == micro(x as int, y as int)),
            gains_label(*old(self), *final(self), micro(x as int, y as int), net@),
    {
        let k = pt_key(x, y);
        let ghost start = *self;
        let position: usize = self.place(k);
        let ghost before = *self;
        proof {
            use_type_invariant(&*self);
        }
        let mut fresh = NetGraph::new();
        std::mem::swap(&mut fresh, self);
        let NetGraph { index, nodes, parent, labels: mut labels, roots, depth } = fresh;
        let mut i: usize = 0;
        while i < labels.len() && labels[i].0 != position
            invariant
                i <= labels@.len(),
                forall|j: int| 0 <= j < i ==> (#[trigger] labels@[j]).0 != position,
            decreases labels@.len() - i,
        {
            i += 1;
        }
        if i < labels.len() {
            labels.set(i, (position, owned(net)));
        } else {
            labels.push((position, owned(net)));
        }
        let graph = NetGraph { index, nodes, parent, labels, roots, depth };
        *self = graph;
        proof {
            lemma_label_added(before, *self, position as int, i as int, net@);
            assert(gains_label(start, *self, k, net@)) by {
                assert forall|z: (i64, i64)| #[trigger]
                    self.labelled(z) <==> (start.labelled(z) || z == k) by {
                    assert(before.labelled(z) == start.labelled(z));
                }
                assert forall|z: (i64, i64)| #![trigger self.name(z)] self.labelled(z) implies
                    self.name(z) == (if z == k {
                    net@
                } else {
                    start.name(z)
                }) by {
                    assert(before.labelled(z) == start.labelled(z));
                    if z != k {
                        assert(before.name(z) == start.name(z));
                    }
                }
            }
            assert forall|z: (i64, i64)| #[trigger] self.root(z) == start.root(z) by {
                assert(before.root(z) == start.root(z));
            }
            assert forall|z: (i64, i64)| #[trigger]
                self.has(z) <==> (start.has(z) || z == k) by {
                assert(before.has(z) <==> (start.has(z) || z == k));
            }
        }
    }

    /// A name that a label gives to the net at a place.
    pub fn net_at(&mut self, x: i64, y: i64) -> (res: Option<String>)
        ensures
            final(self).valid(),
            final(self).same_nets(*old(self)),
            match res {
                Some(net) => named_at(*old(self), micro(x as int, y as int), net@),
                None => unnamed_at(*old(self), micro(x as int, y as int)),
            },
    {
        let k = pt_key(x, y);
        let ghost start = *self;
        let (position, top) = self.locate(k);
        let ghost placed = *self;
        let mut i: usize = 0;
        while i < self.labels.len()
            invariant
                i <= self.labels@.len(),
                self.valid(),
                placed.valid(),
                placed.same_nets(start),
                start == *old(self),
                self.nodes@ == placed.nodes@,
                self.labels@ == placed.labels@,
                self.roots@ == placed.roots@,
                position < placed.nodes@.len(),
                placed.nodes@[position as int] == k,
                placed.roots@[position as int] == top,
                k == micro(x as int, y as int),
                forall|j: int|
                    0 <= j < i ==> placed.roots@[(#[trigger] placed.labels@[j]).0 as int] != top,
            decreases self.labels@.len() - i,
        {
            let holder: usize = self.labels[i].0;
            assert(placed.labels@[i as int].0 < placed.nodes@.len());
            let above: usize = self.climb(holder);
            if above == top {
                let net = self.labels[i].1.clone();
                proof {
                    let z = placed.nodes@[holder as int];
                    lemma_position(placed, holder as int);
                    lemma_position(placed, position as int);
                    lemma_label(placed, i as int);
                    assert(placed.root(z) == start.root(z));
                    assert(placed.root(k) == start.root(k));
                    assert(placed.labelled(z) == start.labelled(z));
                    assert(placed.name(z) == start.name(z));
                    lemma_same_structure(placed, *self);
                    lemma_same_nets_chain(start, placed, *self);
                }
                return Some(net);
            }
            i += 1;
        }
        proof {
            lemma_same_structure(placed, *self);
            lemma_same_nets_chain(start, placed, *self);
            assert forall|z: (i64, i64)| #[trigger] start.labelled(z) implies !start.connected(
                z,
                k,
            ) by {
                assert(placed.labelled(z) == start.labelled(z));
                let j = choose|j: int|
                    0 <= j < placed.labels@.len() && placed.nodes@[(#[trigger]
                    placed.labels@[j]).0 as int] == z;
                lemma_position(placed, placed.labels@[j].0 as int);
                lemma_position(placed, position as int);
                assert(placed.root(z) == start.root(z));
                assert(placed.root(k) == start.root(k));
                lemma_forest(placed, position as int);
                lemma_position(placed, top as int);
                lemma_forest(placed, placed.labels@[j].0 as int);
                lemma_position(placed, placed.roots@[placed.labels@[j].0 as int]);
            }
        }
        None
    }

    /// Every node on a net of this name.
    pub fn points_on_net(&mut self, net: &str) -> (res: Vec<(i64, i64)>)
        ensures
            final(self).valid(),
            final(self).same_nets(*old(self)),
            res@.no_duplicates(),
            forall|k: (i64, i64)| #[trigger]
                res@.contains(k) <==> (old(self).has(k) && named_at(*old(self), k, net@)),
    {
        proof {
            use_type_invariant(&*self);
        }
        let ghost start = *self;
        let count: usize = self.nodes.len();
        let mut on_net: Vec<bool> = Vec::new();
        let mut n: usize = 0;
        while n < count
            invariant
                n <= count,
                on_net@.len() == n,
                forall|j: int| 0 <= j < n ==> !#[trigger] on_net@[j],
            decreases count - n,
        {
            on_net.push(false);
            n += 1;
        }
        let mut i: usize = 0;
        while i < self.labels.len()
            invariant
                i <= self.labels@.len(),
                self.valid(),
                start.valid(),
                self.nodes@ == start.nodes@,
                self.labels@ == start.labels@,
                self.roots@ == start.roots@,
                count == start.nodes@.len(),
                on_net@.len() == count,
                forall|t: int|
                    0 <= t < count ==> (#[trigger] on_net@[t] <==> marked(
                        start.labels@,
                        start.roots@,
                        net@,
                        i as int,
                        t,
                    )),
            decreases self.labels@.len() - i,
        {
            let holder: usize = self.labels[i].0;
            assert(start.labels@[i as int].0 < start.nodes@.len());
            let ghost before = on_net@;
            if text_eq(self.labels[i].1.as_str(), net) {
                let above: usize = self.climb(holder);
                proof {
                    lemma_forest(start, holder as int);
                }
                on_net.set(above, true);
            }
            proof {
                assert forall|t: int| 0 <= t < count implies (#[trigger] on_net@[t] <==> marked(
                    start.labels@,
                    start.roots@,
                    net@,
                    i + 1,
                    t,
                )) by {
                    assert(before[t] <==> marked(start.labels@, start.roots@, net@, i as int, t));
                    lemma_marked_step(start.labels@, start.roots@, net@, i as int, t);
                }
            }
            i += 1;
        }
        let mut res: Vec<(i64, i64)> = Vec::new();
        let mut k: usize = 0;
        while k < count
            invariant
                k <= count,
                self.valid(),
                start.valid(),
                self.nodes@ == start.nodes@,
                self.labels@ == start.labels@,
                self.roots@ == start.roots@,
                count == start.nodes@.len(),
                on_net@.len() == count,
                forall|t: int|
                    0 <= t < count ==> (#[trigger] on_net@[t] <==> marked(
                        start.labels@,
                        start.roots@,
                        net@,
                        start.labels@.len() as int,
                        t,
                    )),
                res@.no_duplicates(),
                forall|z: (i64, i64)| #[trigger]
                    res@.contains(z) <==> (start.nodes@.take(k as int).contains(z) && marked(
                        start.labels@,
                        start.roots@,
                        net@,
                        start.labels@.len() as int,
                        start.roots@[start.nodes@.index_of(z)],
                    )),
            decreases count - k,
        {
            let above: usize = self.climb(k);
            let node = self.nodes[k];
            let ghost before = res@;
            proof {
                lemma_position(start, k as int);
                lemma_forest(start, k as int);
                assert(start.nodes@.take(k + 1) =~= start.nodes@.take(k as int).push(node));
                assert(!start.nodes@.take(k as int).contains(node)) by {
                    if start.nodes@.take(k as int).contains(node) {
                        let j = start.nodes@.take(k as int).index_of(node);
                        assert(start.nodes@[j] == node);
                        lemma_position(start, j);
                    }
                }
                assert(!before.contains(node));
            }
            if on_net[above] {
                res.push(node);
            }
            proof {
                assert forall|z: (i64, i64)| #[trigger]
                    res@.contains(z) <==> (start.nodes@.take(k + 1).contains(z) && marked(
                        start.labels@,
                        start.roots@,
                        net@,
                        start.labels@.len() as int,
                        start.roots@[start.nodes@.index_of(z)],
                    )) by {
                    lemma_pushed(start.nodes@.take(k as int), node, z);
                    lemma_pushed(before, node, z);
                    assert(before.contains(z) <==> (start.nodes@.take(k as int).contains(z)
                        && marked(
                        start.labels@,
                        start.roots@,
                        net@,
                        start.labels@.len() as int,
                        start.roots@[start.nodes@.index_of(z)],
                    )));
                }
            }
            k += 1;
        }
        proof {
            lemma_same_structure(start, *self);
            assert(start.nodes@.take(k as int) =~= start.nodes@);
            assert forall|z: (i64, i64)| #[trigger]
                res@.contains(z) <==> (start.has(z) && named_at(start, z, net@)) by {
                if start.nodes@.contains(z) {
                    lemma_marked_names(start, net@, z);
                }
            }
        }
        res
    }
}

/// One of the first `n` labels has this name and this root.
spec fn marked(
    labels: Seq<(usize, String)>,
    roots: Seq<int>,
    net: Seq<char>,
    n: int,
    top: int,
) -> bool {
    exists|j: int|
        0 <= j < n && (#[trigger] labels[j]).1@ == net && roots[labels[j].0 as int] == top
}

proof fn lemma_marked_step(
    labels: Seq<(usize, String)>,
    roots: Seq<int>,
    net: Seq<char>,
    n: int,
    top: int,
)
    requires
        0 <= n < labels.len(),
    ensures
        marked(labels, roots, net, n + 1, top) == (marked(labels, roots, net, n, top) || (
        labels[n].1@ == net && roots[labels[n].0 as int] == top)),
{
    if marked(labels, roots, net, n, top) {
        let j = choose|j: int|
            0 <= j < n && (#[trigger] labels[j]).1@ == net && roots[labels[j].0 as int] == top;
        assert(labels[j].1@ == net);
    }
}

proof fn lemma_pushed(list: Seq<(i64, i64)>, value: (i64, i64), z: (i64, i64))
    ensures
        list.push(value).contains(z) == (list.contains(z) || z == value),
{
    if list.contains(z) {
        let i = list.index_of(z);
        assert(list.push(value)[i] == z);
    }
    if z == value {
        assert(list.push(value)[list.len() as int] == z);
    }
}

/// A label of this name has the root of a node exactly if it is on its net.
proof fn lemma_marked_names(graph: NetGraph, net: Seq<char>, z: (i64, i64))
    requires
        graph.valid(),
        graph.nodes@.contains(z),
    ensures
        marked(
            graph.labels@,
            graph.roots@,
            net,
            graph.labels@.len() as int,
            graph.roots@[graph.nodes@.index_of(z)],
        ) == named_at(graph, z, net),
{
    let i = graph.nodes@.index_of(z);
    let top = graph.roots@[i];
    lemma_position(graph, i);
    lemma_forest(graph, i);
    lemma_position(graph, top);
    if marked(graph.labels@, graph.roots@, net, graph.labels@.len() as int, top) {
        let j = choose|j: int|
            0 <= j < graph.labels@.len() && (#[trigger] graph.labels@[j]).1@ == net
                && graph.roots@[graph.labels@[j].0 as int] == top;
        lemma_label(graph, j);
        lemma_position(graph, graph.labels@[j].0 as int);
        let x = graph.nodes@[graph.labels@[j].0 as int];
        assert(graph.labelled(x) && graph.connected(x, z));
    }
    if named_at(graph, z, net) {
        let x = choose|x: (i64, i64)| #[trigger]
            graph.labelled(x) && graph.connected(x, z) && graph.name(x) == net;
        let j = choose|j: int|
            0 <= j < graph.labels@.len() && graph.nodes@[(#[trigger] graph.labels@[j]).0 as int]
                == x;
        lemma_label(graph, j);
        lemma_position(graph, graph.labels@[j].0 as int);
        lemma_forest(graph, graph.labels@[j].0 as int);
        lemma_position(graph, graph.roots@[graph.labels@[j].0 as int]);
        assert(graph.labels@[j].1@ == net);
    }
}

/// What a label that is set or appended changes.
proof fn lemma_label_added(
    before: NetGraph,
    after: NetGraph,
    position: int,
    i: int,
    net: Seq<char>,
)
    requires
        before.valid(),
        after.valid(),
        after.nodes@ == before.nodes@,
        after.roots@ == before.roots@,
        0 <= position < before.nodes@.len(),
        0 <= i <= before.labels@.len(),
        i < before.labels@.len() ==> before.labels@[i].0 == position,
        after.labels@.len() == (if i < before.labels@.len() {
            before.labels@.len()
        } else {
            before.labels@.len() + 1
        }),
        after.labels@[i].0 == position,
        after.labels@[i].1@ == net,
        forall|j: int|
            0 <= j < before.labels@.len() && j != i ==> #[trigger] after.labels@[j]
                == before.labels@[j],
    ensures
        gains_label(before, after, before.nodes@[position], net),
        forall|k: (i64, i64)| #[trigger] after.root(k) == before.root(k),
{
    let k = before.nodes@[position];
    lemma_position(before, position);
    assert forall|x: (i64, i64)| #[trigger] after.labelled(x) <==> (before.labelled(x) || x
        == k) by {
        if after.labelled(x) {
            let j = choose|j: int|
                0 <= j < after.labels@.len() && after.nodes@[(#[trigger] after.labels@[j]).0 as int]
                    == x;
            if j != i {
                assert(before.nodes@[before.labels@[j].0 as int] == x);
            }
        }
        if before.labelled(x) {
            let j = choose|j: int|
                0 <= j < before.labels@.len() && before.nodes@[(#[trigger]
                before.labels@[j]).0 as int] == x;
            assert(after.nodes@[after.labels@[j].0 as int] == x);
        }
        if x == k {
            assert(after.nodes@[after.labels@[i].0 as int] == x);
        }
    }
    assert forall|x: (i64, i64)| #![trigger after.name(x)] after.labelled(x) implies after.name(x)
        == (if x == k {
        net
    } else {
        before.name(x)
    }) by {
        let j = choose|j: int|
            0 <= j < after.labels@.len() && after.nodes@[(#[trigger] after.labels@[j]).0 as int]
                == x;
        lemma_label(after, j);
        lemma_label(after, i);
        if x != k {
            assert(j != i);
            lemma_label(before, j);
        }
    }
}

/// A root stands for itself.
pub proof fn law_roots_are_their_own(graph: NetGraph, k: (i64, i64))
    requires
        graph.valid(),
    ensures
        graph.root(graph.root(k)) == graph.root(k),
{
    if graph.nodes@.contains(k) {
        let i = graph.nodes@.index_of(k);
        lemma_position(graph, i);
        lemma_forest(graph, i);
        lemma_position(graph, graph.roots@[i]);
    }
}

/// Joining two nodes connects what either was connected to, and nothing else.
pub proof fn law_union_joins_two_nets(
    before: NetGraph,
    after: NetGraph,
    a: (i64, i64),
    b: (i64, i64),
    x: (i64, i64),
    y: (i64, i64),
)
    requires
        joins(before, after, a, b),
    ensures
        after.connected(x, y) == (before.connected(x, y) || ((before.connected(x, a)
            || before.connected(x, b)) && (before.connected(y, a) || before.connected(y, b)))),
{
    assert(after.root(x) == (if before.root(x) == before.root(b) {
        before.root(a)
    } else {
        before.root(x)
    }));
    assert(after.root(y) == (if before.root(y) == before.root(b) {
        before.root(a)
    } else {
        before.root(y)
    }));
}

/// What is connected to a node of the graph is a node of it.
pub proof fn lemma_connected_is_node(graph: NetGraph, x: (i64, i64), k: (i64, i64))
    requires
        graph.valid(),
        graph.has(x),
        graph.connected(x, k),
    ensures
        graph.has(k),
{
    let i = graph.nodes@.index_of(x);
    lemma_position(graph, i);
    lemma_forest(graph, i);
    assert(graph.nodes@.contains(graph.nodes@[graph.roots@[i]]));
}

/// What carries a label is a node.
pub proof fn lemma_labelled_is_node(graph: NetGraph, x: (i64, i64))
    requires
        graph.valid(),
        graph.labelled(x),
    ensures
        graph.has(x),
{
    let i = choose|i: int|
        0 <= i < graph.labels@.len() && graph.nodes@[(#[trigger] graph.labels@[i]).0 as int] == x;
    assert(graph.labels@[i].0 < graph.nodes@.len());
    assert(graph.nodes@.contains(x));
}

} // verus!
