//! Which points a set of links joins.

use crate::net_graph::{joins, law_union_joins_two_nets, NetGraph};
use vstd::prelude::*;

verus! {

/// A link joins the two points, in either direction.
pub open spec fn linked(
    links: Set<((i64, i64), (i64, i64))>,
    a: (i64, i64),
    b: (i64, i64),
) -> bool {
    links.contains((a, b)) || links.contains((b, a))
}

/// Each point of the path is linked to the next.
pub open spec fn is_path(links: Set<((i64, i64), (i64, i64))>, path: Seq<(i64, i64)>) -> bool {
    &&& path.len() > 0
    &&& forall|i: int| 0 <= i < path.len() - 1 ==> linked(links, #[trigger] path[i], path[i + 1])
}

/// A path of links leads from one point to the other.
pub open spec fn reachable(
    links: Set<((i64, i64), (i64, i64))>,
    a: (i64, i64),
    b: (i64, i64),
) -> bool {
    exists|path: Seq<(i64, i64)>| #[trigger]
        is_path(links, path) && path[0] == a && path.last() == b
}

/// The graph puts two nodes on the same net exactly if links join them.
pub open spec fn models(graph: NetGraph, links: Set<((i64, i64), (i64, i64))>) -> bool {
    forall|a: (i64, i64), b: (i64, i64)| #[trigger]
        graph.connected(a, b) <==> reachable(links, a, b)
}

/// Every point reaches itself.
pub proof fn lemma_reach_self(links: Set<((i64, i64), (i64, i64))>, a: (i64, i64))
    ensures
        reachable(links, a, a),
{
    assert(is_path(links, seq![a]));
}

/// A linked point is reached.
pub proof fn lemma_reach_link(
    links: Set<((i64, i64), (i64, i64))>,
    a: (i64, i64),
    b: (i64, i64),
)
    requires
        linked(links, a, b),
    ensures
        reachable(links, a, b),
{
    assert(is_path(links, seq![a, b]));
}

/// What is reached from a reached point is reached.
pub proof fn lemma_reach_on(
    links: Set<((i64, i64), (i64, i64))>,
    a: (i64, i64),
    b: (i64, i64),
    c: (i64, i64),
)
    requires
        reachable(links, a, b),
        reachable(links, b, c),
    ensures
        reachable(links, a, c),
{
    let p = choose|path: Seq<(i64, i64)>| #[trigger]
        is_path(links, path) && path[0] == a && path.last() == b;
    let q = choose|path: Seq<(i64, i64)>| #[trigger]
        is_path(links, path) && path[0] == b && path.last() == c;
    let r = p + q.skip(1);
    assert forall|i: int| 0 <= i < r.len() - 1 implies linked(
        links,
        #[trigger] r[i],
        r[i + 1],
    ) by {
        if i < p.len() - 1 {
            assert(r[i] == p[i] && r[i + 1] == p[i + 1]);
        } else {
            let j = i - (p.len() - 1);
            assert(r[i] == q[j]);
            assert(r[i + 1] == q[j + 1]);
        }
    }
    assert(is_path(links, r));
    assert(r[0] == a);
    assert(r.last() == c);
}

/// Reaching works in both directions.
pub proof fn lemma_reach_back(
    links: Set<((i64, i64), (i64, i64))>,
    a: (i64, i64),
    b: (i64, i64),
)
    requires
        reachable(links, a, b),
    ensures
        reachable(links, b, a),
{
    let p = choose|path: Seq<(i64, i64)>| #[trigger]
        is_path(links, path) && path[0] == a && path.last() == b;
    let r = Seq::new(p.len(), |i: int| p[p.len() - 1 - i]);
    assert forall|i: int| 0 <= i < r.len() - 1 implies linked(
        links,
        #[trigger] r[i],
        r[i + 1],
    ) by {
        let j = p.len() - 2 - i;
        assert(linked(links, p[j], p[j + 1]));
    }
    assert(is_path(links, r));
}

/// More links reach no less.
pub proof fn lemma_reach_more(
    few: Set<((i64, i64), (i64, i64))>,
    more: Set<((i64, i64), (i64, i64))>,
    a: (i64, i64),
    b: (i64, i64),
)
    requires
        few.subset_of(more),
        reachable(few, a, b),
    ensures
        reachable(more, a, b),
{
    let p = choose|path: Seq<(i64, i64)>| #[trigger]
        is_path(few, path) && path[0] == a && path.last() == b;
    assert forall|i: int| 0 <= i < p.len() - 1 implies linked(
        more,
        #[trigger] p[i],
        p[i + 1],
    ) by {
        assert(linked(few, p[i], p[i + 1]));
    }
    assert(is_path(more, p));
}

/// The point reaches one of the ends of a link.
spec fn reaches_end(
    links: Set<((i64, i64), (i64, i64))>,
    x: (i64, i64),
    a: (i64, i64),
    b: (i64, i64),
) -> bool {
    reachable(links, x, a) || reachable(links, x, b)
}

/// A path over one more link either does without it or ends where that link
/// can be reached from both of its own ends.
proof fn lemma_path_with_link(
    links: Set<((i64, i64), (i64, i64))>,
    a: (i64, i64),
    b: (i64, i64),
    path: Seq<(i64, i64)>,
)
    requires
        is_path(links.insert((a, b)), path),
    ensures
        reachable(links, path[0], path.last()) || (reaches_end(links, path[0], a, b)
            && reaches_end(links, path.last(), a, b)),
    decreases path.len(),
{
    let more = links.insert((a, b));
    if path.len() == 1 {
        lemma_reach_self(links, path[0]);
    } else {
        let rest = path.drop_last();
        assert forall|i: int| 0 <= i < rest.len() - 1 implies linked(
            more,
            #[trigger] rest[i],
            rest[i + 1],
        ) by {
            assert(linked(more, path[i], path[i + 1]));
        }
        lemma_path_with_link(links, a, b, rest);
        let last = path.last();
        let prior = rest.last();
        assert(linked(more, path[path.len() - 2], path[path.len() - 1]));
        assert(linked(more, prior, last));
        if linked(links, prior, last) {
            lemma_reach_link(links, prior, last);
            if reachable(links, path[0], prior) {
                lemma_reach_on(links, path[0], prior, last);
            } else {
                lemma_reach_back(links, prior, last);
                if reachable(links, prior, a) {
                    lemma_reach_on(links, last, prior, a);
                } else {
                    lemma_reach_on(links, last, prior, b);
                }
            }
        } else {
            assert((prior == a && last == b) || (prior == b && last == a));
            lemma_reach_self(links, last);
            lemma_reach_self(links, prior);
        }
    }
}

/// What one more link joins.
pub proof fn law_one_more_link(
    links: Set<((i64, i64), (i64, i64))>,
    a: (i64, i64),
    b: (i64, i64),
    x: (i64, i64),
    y: (i64, i64),
)
    ensures
        reachable(links.insert((a, b)), x, y) == (reachable(links, x, y) || ((reachable(
            links,
            x,
            a,
        ) || reachable(links, x, b)) && (reachable(links, y, a) || reachable(links, y, b)))),
{
    let more = links.insert((a, b));
    if reachable(more, x, y) {
        let p = choose|path: Seq<(i64, i64)>| #[trigger]
            is_path(more, path) && path[0] == x && path.last() == y;
        lemma_path_with_link(links, a, b, p);
    }
    if reachable(links, x, y) {
        lemma_reach_more(links, more, x, y);
    } else if (reachable(links, x, a) || reachable(links, x, b)) && (reachable(links, y, a)
        || reachable(links, y, b)) {
        lemma_reach_link(more, a, b);
        lemma_reach_back(more, a, b);
        if reachable(links, x, a) {
            lemma_reach_more(links, more, x, a);
            lemma_reach_on(more, x, a, b);
        } else {
            lemma_reach_more(links, more, x, b);
            lemma_reach_on(more, x, b, a);
        }
        if reachable(links, y, a) {
            lemma_reach_more(links, more, y, a);
            lemma_reach_back(more, y, a);
            lemma_reach_on(more, x, a, y);
        } else {
            lemma_reach_more(links, more, y, b);
            lemma_reach_back(more, y, b);
            lemma_reach_on(more, x, b, y);
        }
    }
}

/// A graph without nodes models the empty set of links.
pub proof fn lemma_models_nothing(graph: NetGraph)
    requires
        forall|k: (i64, i64)| #[trigger] graph.root(k) == k,
    ensures
        models(graph, Set::empty()),
{
    let none = Set::<((i64, i64), (i64, i64))>::empty();
    assert forall|a: (i64, i64), b: (i64, i64)| #[trigger]
        graph.connected(a, b) <==> reachable(none, a, b) by {
        assert(graph.root(a) == a && graph.root(b) == b);
        lemma_reach_self(none, a);
        if reachable(none, a, b) {
            let p = choose|path: Seq<(i64, i64)>| #[trigger]
                is_path(none, path) && path[0] == a && path.last() == b;
            if p.len() > 1 {
                assert(linked(none, p[0], p[1]));
            }
        }
    }
}

/// Joining two nodes models one more link.
pub proof fn lemma_models_one_more(
    before: NetGraph,
    after: NetGraph,
    links: Set<((i64, i64), (i64, i64))>,
    a: (i64, i64),
    b: (i64, i64),
)
    requires
        models(before, links),
        joins(before, after, a, b),
    ensures
        models(after, links.insert((a, b))),
{
    assert forall|x: (i64, i64), y: (i64, i64)| #[trigger]
        after.connected(x, y) <==> reachable(links.insert((a, b)), x, y) by {
        law_union_joins_two_nets(before, after, a, b, x, y);
        law_one_more_link(links, a, b, x, y);
        assert(before.connected(x, y) <==> reachable(links, x, y));
        assert(before.connected(x, a) <==> reachable(links, x, a));
        assert(before.connected(x, b) <==> reachable(links, x, b));
        assert(before.connected(y, a) <==> reachable(links, y, a));
        assert(before.connected(y, b) <==> reachable(links, y, b));
    }
}

/// A graph with the same roots models the same links.
pub proof fn lemma_models_same(
    before: NetGraph,
    after: NetGraph,
    links: Set<((i64, i64), (i64, i64))>,
)
    requires
        models(before, links),
        forall|k: (i64, i64)| #[trigger] after.root(k) == before.root(k),
    ensures
        models(after, links),
{
    assert forall|x: (i64, i64), y: (i64, i64)| #[trigger]
        after.connected(x, y) <==> reachable(links, x, y) by {
        assert(before.connected(x, y) <==> reachable(links, x, y));
        assert(after.root(x) == before.root(x));
        assert(after.root(y) == before.root(y));
    }
}

} // verus!
