//! What an exported netlist says, told from the nodes of its tree.

use crate::chars::{pairs_replaced, trimmed_end, trimmed_start};
use crate::netlist::{
    components_of, distinct_references, has_dnp, netlist_components, position_of, symbol_path_of,
    with_nets, with_pad, with_pads, ComponentView,
};
use crate::sexp::{with_tag, Sexp};
use vstd::prelude::*;
use vstd::string::*;

verus! {

/// The items of a list under a tag are all of those that start with it, in
/// order, and the value of a tag is the text behind it in the first of them.
pub proof fn law_items_are_found_by_their_tag(node: Sexp, tag: Seq<char>)
    ensures
        node.all(tag) == node.items().filter(
            |item: Sexp| item.items().len() > 0 && item.items()[0].text() == Some(tag),
        ),
        node.first(tag) == (if node.all(tag).len() > 0 {
            Some(node.all(tag)[0])
        } else {
            None
        }),
        node.value_of(tag) == (if node.all(tag).len() > 0 && node.all(tag)[0].items().len() > 1 {
            node.all(tag)[0].items()[1].text()
        } else {
            None
        }),
{
    lemma_tagged(node.items(), tag);
}

proof fn lemma_tagged(list: Seq<Sexp>, tag: Seq<char>)
    ensures
        with_tag(list, tag) == list.filter(
            |item: Sexp| item.items().len() > 0 && item.items()[0].text() == Some(tag),
        ),
    decreases list.len(),
{
    reveal(Seq::filter);
    if list.len() > 0 {
        lemma_tagged(list.drop_last(), tag);
    }
}

/// The node is about this pin of this component.
pub open spec fn mentions(node: Sexp, reference: Seq<char>, pin: Seq<char>) -> bool {
    node.value_of("ref"@) == Some(reference) && node.value_of("pin"@) == Some(pin)
}

/// Node `k` of net `n` is about this pin of this component.
pub open spec fn says(
    nets: Seq<Sexp>,
    n: int,
    k: int,
    reference: Seq<char>,
    pin: Seq<char>,
) -> bool {
    &&& 0 <= n < nets.len()
    &&& 0 <= k < nets[n].all("node"@).len()
    &&& mentions(nets[n].all("node"@)[k], reference, pin)
}

/// The net nodes of a netlist; one without a section has none.
pub open spec fn net_nodes(root: Sexp) -> Seq<Sexp> {
    match root.first("nets"@) {
        Some(section) => section.all("net"@),
        None => Seq::empty(),
    }
}

/// The component nodes of a netlist; one without a section has none.
pub open spec fn component_nodes(root: Sexp) -> Seq<Sexp> {
    match root.first("components"@) {
        Some(section) => section.all("comp"@),
        None => Seq::empty(),
    }
}

/// The component node says all that a component needs.
pub open spec fn is_complete(node: Sexp) -> bool {
    &&& node.value_of("ref"@) is Some
    &&& node.first("sheetpath"@) is Some
    &&& node.first("sheetpath"@)->0.value_of("tstamps"@) is Some
    &&& node.value_of("tstamps"@) is Some
    &&& node.value_of("value"@) is Some
    &&& node.value_of("footprint"@) is Some
}

/// The component holds what its node says.
pub open spec fn reads(component: ComponentView, node: Sexp) -> bool {
    &&& node.value_of("ref"@) == Some(component.reference)
    &&& node.value_of("value"@) == Some(component.value)
    &&& node.value_of("footprint"@) == Some(component.footprint_id)
    &&& component.symbol_path == symbol_path_of(
        node.first("sheetpath"@)->0.value_of("tstamps"@)->0,
        node.value_of("tstamps"@)->0,
    )
    &&& component.dnp == exists|i: int|
        0 <= i < node.all("property"@).len() && ((#[trigger] node.all("property"@)[i]).value_of(
            "name"@,
        ) == Some("dnp"@) || node.all("property"@)[i].text_at(1) == Some("dnp"@))
}

/// The nets fit the components: every net has a name, and each of its nodes is
/// about a pin of a component that is there and that no other node is about.
pub open spec fn nets_fit(nets: Seq<Sexp>, known: spec_fn(Seq<char>) -> bool) -> bool {
    &&& forall|n: int| 0 <= n < nets.len() ==> (#[trigger] nets[n]).value_of("name"@) is Some
    &&& forall|n: int, k: int|
        #![trigger nets[n].all("node"@)[k]]
        0 <= n < nets.len() && 0 <= k < nets[n].all("node"@).len() ==> {
            let node = nets[n].all("node"@)[k];
            node.value_of("ref"@) is Some && node.value_of("pin"@) is Some && known(
                node.value_of("ref"@)->0,
            )
        }
    &&& forall|n: int, k: int, m: int, l: int, reference: Seq<char>, pin: Seq<char>|
        #[trigger] says(nets, n, k, reference, pin) && #[trigger] says(nets, m, l, reference, pin)
            ==> n == m && k == l
}

/// A netlist is accepted exactly if it has components, each of them is complete,
/// no reference occurs twice, and the nets fit them.
pub proof fn law_netlists_are_accepted_when_they_fit(root: Sexp)
    ensures
        netlist_components(root) is Ok <==> {
            let comps = component_nodes(root);
            &&& comps.len() > 0
            &&& forall|i: int| 0 <= i < comps.len() ==> is_complete(#[trigger] comps[i])
            &&& forall|i: int, j: int|
                0 <= i < j < comps.len() ==> (#[trigger] comps[i]).value_of("ref"@) != (
                #[trigger] comps[j]).value_of("ref"@)
            &&& nets_fit(
                net_nodes(root),
                |reference: Seq<char>| has_component(comps, reference),
            )
        },
{
    let comps = component_nodes(root);
    lemma_components(comps);
    let named = |reference: Seq<char>| has_component(comps, reference);
    if components_of(comps) is Ok {
        let list = components_of(comps)->Ok_0;
        lemma_nets(list, net_nodes(root));
        lemma_known(comps, list);
        let known = |reference: Seq<char>| is_listed(list, reference);
        assert forall|r: Seq<char>| #[trigger] known(r) == named(r) by {}
        lemma_same_fit(net_nodes(root), known, named);
        assert(fits(list, net_nodes(root)) == nets_fit(net_nodes(root), known)) by {
            lemma_fresh_fit(list, net_nodes(root));
        }
        if root.first("nets"@) is None {
            assert(net_nodes(root) =~= Seq::empty());
        }
    }
}

/// A component node has this reference.
pub open spec fn has_component(comps: Seq<Sexp>, reference: Seq<char>) -> bool {
    exists|i: int|
        0 <= i < comps.len() && (#[trigger] comps[i]).value_of("ref"@) == Some(reference)
}

/// The components of an accepted netlist are those of its component nodes, in
/// order. Each node of each net puts its pin on that net, and nothing else puts
/// a pin on a net.
pub proof fn law_every_node_of_a_net_is_read(root: Sexp)
    ensures
        netlist_components(root) matches Ok(list) ==> {
            let comps = component_nodes(root);
            let nets = net_nodes(root);
            &&& list.len() == comps.len()
            &&& forall|i: int| 0 <= i < list.len() ==> reads(#[trigger] list[i], comps[i])
            &&& forall|i: int, n: int, k: int, pin: Seq<char>|
                0 <= i < list.len() && #[trigger] says(nets, n, k, (#[trigger] list[i]).reference, pin)
                    ==> list[i].pad_nets.contains_key(pin) && nets[n].value_of("name"@) == Some(
                    list[i].pad_nets[pin],
                )
            &&& forall|i: int, pin: Seq<char>|
                0 <= i < list.len() && #[trigger] list[i].pad_nets.contains_key(pin)
                    ==> exists|n: int, k: int| #[trigger]
                    says(nets, n, k, list[i].reference, pin)
        },
{
    let comps = component_nodes(root);
    let nets = net_nodes(root);
    lemma_components(comps);
    if netlist_components(root) is Ok {
        let start = components_of(comps)->Ok_0;
        lemma_nets(start, nets);
        let list = netlist_components(root)->Ok_0;
        if root.first("nets"@) is None {
            assert(nets =~= Seq::empty());
        }
        assert(with_nets(start, nets) == Ok::<
            Seq<ComponentView>,
            crate::netlist::NetlistFault,
        >(list));
        assert forall|i: int| 0 <= i < list.len() implies reads(#[trigger] list[i], comps[i]) by {
            assert(reads(start[i], comps[i]));
            assert(same_but_pads(start[i], list[i]));
        }
        assert forall|i: int, n: int, k: int, pin: Seq<char>|
            0 <= i < list.len() && #[trigger] says(
                nets,
                n,
                k,
                (#[trigger] list[i]).reference,
                pin,
            ) implies list[i].pad_nets.contains_key(pin) && nets[n].value_of("name"@) == Some(
            list[i].pad_nets[pin],
        ) by {
            assert(same_but_pads(start[i], list[i]));
            assert(says(nets, n, k, start[i].reference, pin));
            assert(is_put(start, nets, list, i, pin));
        }
        assert forall|i: int, pin: Seq<char>|
            0 <= i < list.len() && #[trigger] list[i].pad_nets.contains_key(pin) implies exists|
            n: int,
            k: int,
        | #[trigger] says(nets, n, k, list[i].reference, pin) by {
            assert(same_but_pads(start[i], list[i]));
            assert(start[i].pad_nets =~= Map::empty());
            assert(is_put(start, nets, list, i, pin));
        }
    }
}

spec fn same_but_pads(a: ComponentView, b: ComponentView) -> bool {
    &&& a.reference == b.reference
    &&& a.value == b.value
    &&& a.footprint_id == b.footprint_id
    &&& a.symbol_path == b.symbol_path
    &&& a.dnp == b.dnp
}

spec fn all_same_but_pads(a: Seq<ComponentView>, b: Seq<ComponentView>) -> bool {
    a.len() == b.len() && forall|i: int| 0 <= i < a.len() ==> same_but_pads(#[trigger] a[i], b[i])
}

spec fn is_listed(list: Seq<ComponentView>, reference: Seq<char>) -> bool {
    exists|i: int| 0 <= i < list.len() && (#[trigger] list[i]).reference == reference
}

proof fn lemma_position(list: Seq<ComponentView>, reference: Seq<char>)
    ensures
        match position_of(list, reference) {
            Some(i) => 0 <= i < list.len() && list[i].reference == reference,
            None => !is_listed(list, reference),
        },
    decreases list.len(),
{
    if list.len() > 0 {
        let rest = list.drop_last();
        lemma_position(rest, reference);
        if is_listed(list, reference) {
            let i = choose|i: int|
                0 <= i < list.len() && (#[trigger] list[i]).reference == reference;
            if i < rest.len() {
                assert(rest[i] == list[i]);
            }
        }
    }
}

proof fn lemma_components(nodes: Seq<Sexp>)
    ensures
        components_of(nodes) is Ok <==> {
            &&& forall|i: int| 0 <= i < nodes.len() ==> is_complete(#[trigger] nodes[i])
            &&& forall|i: int, j: int|
                0 <= i < j < nodes.len() ==> (#[trigger] nodes[i]).value_of("ref"@) != (
                #[trigger] nodes[j]).value_of("ref"@)
        },
        components_of(nodes) matches Ok(list) ==> {
            &&& list.len() == nodes.len()
            &&& forall|i: int| 0 <= i < list.len() ==> reads(#[trigger] list[i], nodes[i])
            &&& forall|i: int|
                0 <= i < list.len() ==> (#[trigger] list[i]).pad_nets == Map::<
                    Seq<char>,
                    Seq<char>,
                >::empty()
            &&& distinct_references(list)
        },
    decreases nodes.len(),
{
    if nodes.len() > 0 {
        let rest = nodes.drop_last();
        let last = nodes.last();
        lemma_components(rest);
        assert(nodes[nodes.len() - 1] == last);
        assert forall|i: int| 0 <= i < rest.len() implies #[trigger] rest[i] == nodes[i] by {}
        if components_of(rest) is Ok {
            let earlier = components_of(rest)->Ok_0;
            if last.value_of("ref"@) is Some {
                let reference = last.value_of("ref"@)->0;
                lemma_position(earlier, reference);
                if position_of(earlier, reference) is Some {
                    let i = position_of(earlier, reference)->0;
                    assert(reads(earlier[i], rest[i]));
                    assert(nodes[i].value_of("ref"@) == nodes[nodes.len() - 1].value_of("ref"@));
                } else {
                    assert forall|i: int| 0 <= i < rest.len() implies (
                    #[trigger] nodes[i]).value_of("ref"@) != last.value_of("ref"@) by {
                        assert(reads(earlier[i], rest[i]));
                        assert(earlier[i].reference != reference);
                    }
                }
            }
            if components_of(nodes) is Ok {
                let list = components_of(nodes)->Ok_0;
                let own = list.last();
                assert(list == earlier.push(own));
                assert(own.dnp == has_dnp(last));
                assert(reads(own, last));
                assert forall|i: int| 0 <= i < list.len() implies reads(
                    #[trigger] list[i],
                    nodes[i],
                ) by {
                    if i < earlier.len() {
                        assert(list[i] == earlier[i]);
                        assert(reads(earlier[i], rest[i]));
                    }
                }
                assert forall|i: int, j: int| 0 <= i < j < list.len() implies (
                #[trigger] list[i]).reference != (#[trigger] list[j]).reference by {
                    assert(list[i] == earlier[i]);
                    if j < earlier.len() {
                        assert(list[j] == earlier[j]);
                    }
                }
                assert forall|i: int| 0 <= i < nodes.len() implies is_complete(
                    #[trigger] nodes[i],
                ) by {
                    if i < rest.len() {
                        assert(is_complete(rest[i]));
                    }
                }
                assert forall|i: int, j: int| 0 <= i < j < nodes.len() implies (
                #[trigger] nodes[i]).value_of("ref"@) != (#[trigger] nodes[j]).value_of(
                    "ref"@,
                ) by {
                    assert(reads(list[i], nodes[i]) && reads(list[j], nodes[j]));
                    assert(list[i].reference != list[j].reference);
                }
            } else if forall|i: int| 0 <= i < nodes.len() ==> is_complete(#[trigger] nodes[i]) {
                assert(is_complete(nodes[nodes.len() - 1]));
                assert(position_of(earlier, last.value_of("ref"@)->0) is Some);
            }
        } else {
            if forall|i: int| 0 <= i < nodes.len() ==> is_complete(#[trigger] nodes[i]) {
                assert forall|i: int| 0 <= i < rest.len() implies is_complete(
                    #[trigger] rest[i],
                ) by {
                    assert(is_complete(nodes[i]));
                }
            }
            if forall|i: int, j: int|
                0 <= i < j < nodes.len() ==> (#[trigger] nodes[i]).value_of("ref"@) != (
                #[trigger] nodes[j]).value_of("ref"@) {
                assert forall|i: int, j: int| 0 <= i < j < rest.len() implies (
                #[trigger] rest[i]).value_of("ref"@) != (#[trigger] rest[j]).value_of("ref"@) by {
                    assert(nodes[i].value_of("ref"@) != nodes[j].value_of("ref"@));
                }
            }
        }
    }
}

proof fn lemma_known(comps: Seq<Sexp>, list: Seq<ComponentView>)
    requires
        list.len() == comps.len(),
        forall|i: int| 0 <= i < list.len() ==> reads(#[trigger] list[i], comps[i]),
    ensures
        forall|r: Seq<char>| #[trigger] is_listed(list, r) == has_component(comps, r),
{
    assert forall|r: Seq<char>| #[trigger] is_listed(list, r) == has_component(comps, r) by {
        if is_listed(list, r) {
            let i = choose|i: int| 0 <= i < list.len() && (#[trigger] list[i]).reference == r;
            assert(reads(list[i], comps[i]));
        }
        if has_component(comps, r) {
            let i = choose|i: int|
                0 <= i < comps.len() && (#[trigger] comps[i]).value_of("ref"@) == Some(r);
            assert(reads(list[i], comps[i]));
        }
    }
}

/// The pin of a component is free before these nodes.
spec fn is_free(list: Seq<ComponentView>, reference: Seq<char>, pin: Seq<char>) -> bool {
    forall|i: int|
        0 <= i < list.len() && (#[trigger] list[i]).reference == reference
            ==> !list[i].pad_nets.contains_key(pin)
}

spec fn node_fits(list: Seq<ComponentView>, node: Sexp) -> bool {
    &&& node.value_of("ref"@) is Some
    &&& node.value_of("pin"@) is Some
    &&& is_listed(list, node.value_of("ref"@)->0)
    &&& is_free(list, node.value_of("ref"@)->0, node.value_of("pin"@)->0)
}

spec fn nodes_fit(list: Seq<ComponentView>, nodes: Seq<Sexp>) -> bool {
    &&& forall|k: int| 0 <= k < nodes.len() ==> node_fits(list, #[trigger] nodes[k])
    &&& forall|k: int, l: int, reference: Seq<char>, pin: Seq<char>|
        0 <= k < l < nodes.len() && #[trigger] mentions(nodes[k], reference, pin)
            ==> !#[trigger] mentions(nodes[l], reference, pin)
}

/// The nodes put exactly their pins on the net.
spec fn put(
    before: Seq<ComponentView>,
    net: Seq<char>,
    nodes: Seq<Sexp>,
    after: Seq<ComponentView>,
    i: int,
    pin: Seq<char>,
) -> bool {
    if exists|k: int| 0 <= k < nodes.len() && mentions(#[trigger] nodes[k], before[i].reference, pin) {
        after[i].pad_nets.contains_key(pin) && after[i].pad_nets[pin] == net
    } else {
        &&& after[i].pad_nets.contains_key(pin) == before[i].pad_nets.contains_key(pin)
        &&& before[i].pad_nets.contains_key(pin) ==> after[i].pad_nets[pin]
            == before[i].pad_nets[pin]
    }
}

proof fn lemma_pad(list: Seq<ComponentView>, net: Seq<char>, node: Sexp)
    requires
        distinct_references(list),
    ensures
        with_pad(list, net, node) is Ok <==> node_fits(list, node),
        with_pad(list, net, node) matches Ok(done) ==> {
            &&& all_same_but_pads(list, done)
            &&& forall|i: int, pin: Seq<char>|
                0 <= i < list.len() ==> if mentions(node, (#[trigger] list[i]).reference, pin) {
                    (#[trigger] done[i].pad_nets.contains_key(pin)) && done[i].pad_nets[pin] == net
                } else {
                    &&& done[i].pad_nets.contains_key(pin) == list[i].pad_nets.contains_key(pin)
                    &&& list[i].pad_nets.contains_key(pin) ==> done[i].pad_nets[pin]
                        == list[i].pad_nets[pin]
                }
        },
{
    if node.value_of("ref"@) is Some && node.value_of("pin"@) is Some {
        let reference = node.value_of("ref"@)->0;
        let own = node.value_of("pin"@)->0;
        lemma_position(list, reference);
        if position_of(list, reference) is Some {
            let at = position_of(list, reference)->0;
            assert forall|i: int| 0 <= i < list.len() && i != at implies (
            #[trigger] list[i]).reference != reference by {
                if i < at {
                    assert(list[i].reference != list[at].reference);
                } else {
                    assert(list[at].reference != list[i].reference);
                }
            }
            assert(is_free(list, reference, own) == !list[at].pad_nets.contains_key(own));
        }
    }
}

proof fn lemma_pads(list: Seq<ComponentView>, net: Seq<char>, nodes: Seq<Sexp>)
    requires
        distinct_references(list),
    ensures
        with_pads(list, net, nodes) is Ok <==> nodes_fit(list, nodes),
        with_pads(list, net, nodes) matches Ok(done) ==> {
            &&& all_same_but_pads(list, done)
            &&& distinct_references(done)
            &&& forall|i: int, pin: Seq<char>|
                0 <= i < list.len() ==> #[trigger] put(list, net, nodes, done, i, pin)
        },
    decreases nodes.len(),
{
    if nodes.len() == 0 {
        assert forall|i: int, pin: Seq<char>| 0 <= i < list.len() implies #[trigger] put(
            list,
            net,
            nodes,
            list,
            i,
            pin,
        ) by {}
    } else {
        let rest = nodes.drop_last();
        let last = nodes.last();
        let end = nodes.len() - 1;
        assert(nodes[end] == last);
        assert forall|k: int| 0 <= k < rest.len() implies #[trigger] rest[k] == nodes[k] by {}
        lemma_pads(list, net, rest);
        if with_pads(list, net, rest) is Ok {
            let middle = with_pads(list, net, rest)->Ok_0;
            lemma_pad(middle, net, last);
            assert(node_fits(middle, last) == (node_fits(list, last) && forall|k: int|
                0 <= k < rest.len() ==> !mentions(
                    #[trigger] rest[k],
                    last.value_of("ref"@)->0,
                    last.value_of("pin"@)->0,
                ))) by {
                lemma_fits_after(list, net, rest, middle, last);
            }
            if node_fits(middle, last) {
                assert forall|k: int| 0 <= k < nodes.len() implies node_fits(
                    list,
                    #[trigger] nodes[k],
                ) by {
                    if k < end {
                        assert(node_fits(list, rest[k]));
                    }
                }
                assert forall|k: int, l: int, reference: Seq<char>, pin: Seq<char>|
                    0 <= k < l < nodes.len() && #[trigger] mentions(
                        nodes[k],
                        reference,
                        pin,
                    ) implies !#[trigger] mentions(nodes[l], reference, pin) by {
                    assert(rest[k] == nodes[k]);
                    if l < end {
                        assert(rest[l] == nodes[l]);
                        assert(mentions(rest[k], reference, pin));
                        assert(!mentions(rest[l], reference, pin));
                    } else if mentions(last, reference, pin) {
                        assert(!mentions(rest[k], reference, pin));
                    }
                }
                let done = with_pads(list, net, nodes)->Ok_0;
                assert forall|i: int| 0 <= i < list.len() implies same_but_pads(
                    #[trigger] list[i],
                    done[i],
                ) by {
                    assert(same_but_pads(list[i], middle[i]));
                    assert(same_but_pads(middle[i], done[i]));
                }
                assert forall|i: int, j: int| 0 <= i < j < done.len() implies (
                #[trigger] done[i]).reference != (#[trigger] done[j]).reference by {
                    assert(same_but_pads(list[i], done[i]));
                    assert(same_but_pads(list[j], done[j]));
                }
                assert forall|i: int, pin: Seq<char>| 0 <= i < list.len() implies #[trigger] put(
                    list,
                    net,
                    nodes,
                    done,
                    i,
                    pin,
                ) by {
                    assert(put(list, net, rest, middle, i, pin));
                    assert(same_but_pads(list[i], middle[i]));
                    let r = list[i].reference;
                    assert(middle[i].reference == r);
                    assert(done[i].pad_nets.contains_key(pin) == (middle[i].pad_nets.contains_key(
                        pin,
                    ) || mentions(last, r, pin)));
                    if exists|k: int| 0 <= k < rest.len() && mentions(#[trigger] rest[k], r, pin) {
                        let k = choose|k: int|
                            0 <= k < rest.len() && mentions(#[trigger] rest[k], r, pin);
                        assert(mentions(nodes[k], r, pin));
                    }
                    if exists|k: int|
                        0 <= k < nodes.len() && mentions(#[trigger] nodes[k], r, pin) {
                        let k = choose|k: int|
                            0 <= k < nodes.len() && mentions(#[trigger] nodes[k], r, pin);
                        if k < end {
                            assert(mentions(rest[k], r, pin));
                        }
                    }
                }
            } else {
                if nodes_fit(list, nodes) {
                    assert(node_fits(list, nodes[end]));
                    let (r, p) = (last.value_of("ref"@)->0, last.value_of("pin"@)->0);
                    assert(mentions(nodes[end], r, p));
                    assert forall|k: int| 0 <= k < rest.len() implies !mentions(
                        #[trigger] rest[k],
                        r,
                        p,
                    ) by {
                        assert(rest[k] == nodes[k]);
                        if mentions(nodes[k], r, p) {
                            assert(!mentions(nodes[end], r, p));
                        }
                    }
                }
            }
        } else {
            if nodes_fit(list, nodes) {
                assert forall|k: int| 0 <= k < rest.len() implies node_fits(
                    list,
                    #[trigger] rest[k],
                ) by {
                    assert(node_fits(list, nodes[k]));
                }
                assert forall|k: int, l: int, reference: Seq<char>, pin: Seq<char>|
                    0 <= k < l < rest.len() && #[trigger] mentions(
                        rest[k],
                        reference,
                        pin,
                    ) implies !#[trigger] mentions(rest[l], reference, pin) by {
                    assert(mentions(nodes[k], reference, pin));
                    assert(!mentions(nodes[l], reference, pin));
                }
            }
        }
    }
}

proof fn lemma_fits_after(
    list: Seq<ComponentView>,
    net: Seq<char>,
    rest: Seq<Sexp>,
    middle: Seq<ComponentView>,
    last: Sexp,
)
    requires
        all_same_but_pads(list, middle),
        forall|i: int, pin: Seq<char>|
            0 <= i < list.len() ==> #[trigger] put(list, net, rest, middle, i, pin),
        nodes_fit(list, rest),
    ensures
        node_fits(middle, last) == (node_fits(list, last) && forall|k: int|
            0 <= k < rest.len() ==> !mentions(
                #[trigger] rest[k],
                last.value_of("ref"@)->0,
                last.value_of("pin"@)->0,
            )),
{
    if last.value_of("ref"@) is Some && last.value_of("pin"@) is Some {
        let (r, p) = (last.value_of("ref"@)->0, last.value_of("pin"@)->0);
        if is_listed(list, r) {
            let i = choose|i: int| 0 <= i < list.len() && (#[trigger] list[i]).reference == r;
            assert(same_but_pads(list[i], middle[i]));
            assert(middle[i].reference == r);
        }
        if is_listed(middle, r) {
            let i = choose|i: int| 0 <= i < middle.len() && (#[trigger] middle[i]).reference == r;
            assert(same_but_pads(list[i], middle[i]));
            assert(list[i].reference == r);
        }
        if node_fits(middle, last) {
            assert forall|i: int|
                0 <= i < list.len() && (#[trigger] list[i]).reference == r implies
                !list[i].pad_nets.contains_key(p) by {
                assert(same_but_pads(list[i], middle[i]));
                assert(middle[i].reference == r);
                assert(put(list, net, rest, middle, i, p));
            }
            assert forall|k: int| 0 <= k < rest.len() implies !mentions(
                #[trigger] rest[k],
                r,
                p,
            ) by {
                if mentions(rest[k], r, p) {
                    let i = choose|i: int|
                        0 <= i < list.len() && (#[trigger] list[i]).reference == r;
                    assert(same_but_pads(list[i], middle[i]));
                    assert(put(list, net, rest, middle, i, p));
                    assert(middle[i].reference == r);
                }
            }
        }
        if node_fits(list, last) && forall|k: int|
            0 <= k < rest.len() ==> !mentions(#[trigger] rest[k], r, p) {
            assert forall|i: int|
                0 <= i < middle.len() && (#[trigger] middle[i]).reference == r implies
                !middle[i].pad_nets.contains_key(p) by {
                assert(same_but_pads(list[i], middle[i]));
                assert(list[i].reference == r);
                assert(put(list, net, rest, middle, i, p));
            }
        }
    }
}

/// The nets put exactly their pins on them.
spec fn is_put(
    before: Seq<ComponentView>,
    nets: Seq<Sexp>,
    after: Seq<ComponentView>,
    i: int,
    pin: Seq<char>,
) -> bool {
    let r = before[i].reference;
    &&& forall|n: int, k: int| #[trigger]
        says(nets, n, k, r, pin) ==> after[i].pad_nets.contains_key(pin) && nets[n].value_of(
            "name"@,
        ) == Some(after[i].pad_nets[pin])
    &&& (forall|n: int, k: int| !#[trigger] says(nets, n, k, r, pin))
        ==> after[i].pad_nets.contains_key(pin) == before[i].pad_nets.contains_key(pin)
    &&& before[i].pad_nets.contains_key(pin) ==> after[i].pad_nets.contains_key(pin)
        && after[i].pad_nets[pin] == before[i].pad_nets[pin]
}

spec fn fits(list: Seq<ComponentView>, nets: Seq<Sexp>) -> bool {
    &&& forall|n: int| 0 <= n < nets.len() ==> (#[trigger] nets[n]).value_of("name"@) is Some
    &&& forall|n: int, k: int|
        #![trigger nets[n].all("node"@)[k]]
        0 <= n < nets.len() && 0 <= k < nets[n].all("node"@).len() ==> node_fits(
            list,
            nets[n].all("node"@)[k],
        )
    &&& forall|n: int, k: int, m: int, l: int, reference: Seq<char>, pin: Seq<char>|
        #[trigger] says(nets, n, k, reference, pin) && #[trigger] says(nets, m, l, reference, pin)
            ==> n == m && k == l
}

proof fn lemma_nets(list: Seq<ComponentView>, nets: Seq<Sexp>)
    requires
        distinct_references(list),
    ensures
        with_nets(list, nets) is Ok <==> fits(list, nets),
        with_nets(list, nets) matches Ok(done) ==> {
            &&& all_same_but_pads(list, done)
            &&& distinct_references(done)
            &&& forall|i: int, pin: Seq<char>|
                0 <= i < list.len() ==> #[trigger] is_put(list, nets, done, i, pin)
        },
    decreases nets.len(),
{
    if nets.len() == 0 {
        assert forall|i: int, pin: Seq<char>| 0 <= i < list.len() implies #[trigger] is_put(
            list,
            nets,
            list,
            i,
            pin,
        ) by {}
    } else {
        let rest = nets.drop_last();
        let last = nets.last();
        let end = nets.len() - 1;
        let nodes = last.all("node"@);
        assert(nets[end] == last);
        assert forall|n: int| 0 <= n < rest.len() implies #[trigger] rest[n] == nets[n] by {}
        assert forall|n: int, k: int, r: Seq<char>, p: Seq<char>| #[trigger]
            says(nets, n, k, r, p) <==> says(rest, n, k, r, p) || (n == end && 0 <= k < nodes.len()
                && mentions(nodes[k], r, p)) by {
            if 0 <= n < rest.len() {
                assert(rest[n] == nets[n]);
            }
        }
        lemma_nets(list, rest);
        if with_nets(list, rest) is Ok {
            let middle = with_nets(list, rest)->Ok_0;
            lemma_step(list, rest, middle, nets);
            if last.value_of("name"@) is Some {
                let net = last.value_of("name"@)->0;
                lemma_pads(middle, net, nodes);
                if nodes_fit(middle, nodes) {
                    let done = with_nets(list, nets)->Ok_0;
                    lemma_both(list, rest, middle, nets, done);
                }
            } else {
                assert(!fits(list, nets)) by {
                    assert(nets[end].value_of("name"@) is None);
                }
            }
        } else if fits(list, nets) {
            assert forall|n: int| 0 <= n < rest.len() implies (#[trigger] rest[n]).value_of(
                "name"@,
            ) is Some by {
                assert(nets[n].value_of("name"@) is Some);
            }
            assert forall|n: int, k: int|
                #![trigger rest[n].all("node"@)[k]]
                0 <= n < rest.len() && 0 <= k < rest[n].all("node"@).len() implies node_fits(
                list,
                rest[n].all("node"@)[k],
            ) by {
                assert(rest[n] == nets[n]);
                assert(node_fits(list, nets[n].all("node"@)[k]));
            }
            assert forall|n: int, k: int, m: int, l: int, r: Seq<char>, p: Seq<char>|
                #[trigger] says(rest, n, k, r, p) && #[trigger] says(rest, m, l, r, p) implies n
                == m && k == l by {
                assert(says(nets, n, k, r, p) && says(nets, m, l, r, p));
            }
        }
    }
}

/// The last net fits what the others leave exactly if all fit.
proof fn lemma_step(
    list: Seq<ComponentView>,
    rest: Seq<Sexp>,
    middle: Seq<ComponentView>,
    nets: Seq<Sexp>,
)
    requires
        nets.len() > 0,
        rest == nets.drop_last(),
        all_same_but_pads(list, middle),
        fits(list, rest),
        nets.last().value_of("name"@) is Some ==> true,
        forall|i: int, pin: Seq<char>|
            0 <= i < list.len() ==> #[trigger] is_put(list, rest, middle, i, pin),
        forall|n: int, k: int, r: Seq<char>, p: Seq<char>| #[trigger]
            says(nets, n, k, r, p) <==> says(rest, n, k, r, p) || (n == nets.len() - 1 && 0 <= k
                < nets.last().all("node"@).len() && mentions(nets.last().all("node"@)[k], r, p)),
    ensures
        nets.last().value_of("name"@) is Some ==> (fits(list, nets) <==> nodes_fit(
            middle,
            nets.last().all("node"@),
        )),
{
    let end = nets.len() - 1;
    let nodes = nets.last().all("node"@);
    assert(nets[end] == nets.last());
    if nets.last().value_of("name"@) is Some {
        assert forall|k: int| 0 <= k < nodes.len() implies node_fits(middle, #[trigger] nodes[k])
            == (node_fits(list, nodes[k]) && forall|n: int, l: int|
            !#[trigger] says(
                rest,
                n,
                l,
                nodes[k].value_of("ref"@)->0,
                nodes[k].value_of("pin"@)->0,
            )) by {
            lemma_node_after(list, rest, middle, nodes[k]);
        }
        if fits(list, nets) {
            assert forall|k: int| 0 <= k < nodes.len() implies node_fits(
                middle,
                #[trigger] nodes[k],
            ) by {
                assert(node_fits(list, nets[end].all("node"@)[k]));
                let (r, p) = (nodes[k].value_of("ref"@)->0, nodes[k].value_of("pin"@)->0);
                assert(says(nets, end, k, r, p));
                assert forall|n: int, l: int| !#[trigger] says(rest, n, l, r, p) by {
                    if says(rest, n, l, r, p) {
                        assert(says(nets, n, l, r, p));
                    }
                }
            }
            assert forall|k: int, l: int, r: Seq<char>, p: Seq<char>|
                0 <= k < l < nodes.len() && #[trigger] mentions(nodes[k], r, p) implies
                !#[trigger] mentions(nodes[l], r, p) by {
                if mentions(nodes[l], r, p) {
                    assert(says(nets, end, k, r, p) && says(nets, end, l, r, p));
                }
            }
        }
        if nodes_fit(middle, nodes) {
            assert forall|n: int| 0 <= n < nets.len() implies (#[trigger] nets[n]).value_of(
                "name"@,
            ) is Some by {
                if n < end {
                    assert(rest[n] == nets[n]);
                }
            }
            assert forall|n: int, k: int|
                #![trigger nets[n].all("node"@)[k]]
                0 <= n < nets.len() && 0 <= k < nets[n].all("node"@).len() implies node_fits(
                list,
                nets[n].all("node"@)[k],
            ) by {
                if n < end {
                    assert(rest[n] == nets[n]);
                    assert(node_fits(list, rest[n].all("node"@)[k]));
                } else {
                    assert(node_fits(middle, nodes[k]));
                }
            }
            assert forall|n: int, k: int, m: int, l: int, r: Seq<char>, p: Seq<char>|
                #[trigger] says(nets, n, k, r, p) && #[trigger] says(nets, m, l, r, p) implies n
                == m && k == l by {
                if n == end && m == end {
                    if k < l {
                        assert(mentions(nodes[k], r, p) && mentions(nodes[l], r, p));
                    } else if l < k {
                        assert(mentions(nodes[l], r, p) && mentions(nodes[k], r, p));
                    }
                } else if n == end {
                    assert(node_fits(middle, nodes[k]));
                    assert(says(rest, m, l, r, p));
                } else if m == end {
                    assert(node_fits(middle, nodes[l]));
                    assert(says(rest, n, k, r, p));
                } else {
                    assert(says(rest, n, k, r, p) && says(rest, m, l, r, p));
                }
            }
        }
    }
}

proof fn lemma_node_after(
    list: Seq<ComponentView>,
    rest: Seq<Sexp>,
    middle: Seq<ComponentView>,
    node: Sexp,
)
    requires
        all_same_but_pads(list, middle),
        forall|i: int, pin: Seq<char>|
            0 <= i < list.len() ==> #[trigger] is_put(list, rest, middle, i, pin),
    ensures
        node_fits(middle, node) == (node_fits(list, node) && forall|n: int, l: int|
            !#[trigger] says(rest, n, l, node.value_of("ref"@)->0, node.value_of("pin"@)->0)),
{
    if node.value_of("ref"@) is Some && node.value_of("pin"@) is Some {
        let (r, p) = (node.value_of("ref"@)->0, node.value_of("pin"@)->0);
        if is_listed(list, r) {
            let i = choose|i: int| 0 <= i < list.len() && (#[trigger] list[i]).reference == r;
            assert(same_but_pads(list[i], middle[i]));
            assert(middle[i].reference == r);
        }
        if is_listed(middle, r) {
            let i = choose|i: int| 0 <= i < middle.len() && (#[trigger] middle[i]).reference == r;
            assert(same_but_pads(list[i], middle[i]));
            assert(list[i].reference == r);
        }
        if node_fits(middle, node) {
            assert forall|i: int|
                0 <= i < list.len() && (#[trigger] list[i]).reference == r implies
                !list[i].pad_nets.contains_key(p) by {
                assert(same_but_pads(list[i], middle[i]));
                assert(middle[i].reference == r);
                assert(is_put(list, rest, middle, i, p));
            }
            assert forall|n: int, l: int| !#[trigger] says(rest, n, l, r, p) by {
                if says(rest, n, l, r, p) {
                    let i = choose|i: int|
                        0 <= i < list.len() && (#[trigger] list[i]).reference == r;
                    assert(same_but_pads(list[i], middle[i]));
                    assert(is_put(list, rest, middle, i, p));
                    assert(middle[i].reference == r);
                }
            }
        }
        if node_fits(list, node) && forall|n: int, l: int| !#[trigger] says(rest, n, l, r, p) {
            assert forall|i: int|
                0 <= i < middle.len() && (#[trigger] middle[i]).reference == r implies
                !middle[i].pad_nets.contains_key(p) by {
                assert(same_but_pads(list[i], middle[i]));
                assert(list[i].reference == r);
                assert(is_put(list, rest, middle, i, p));
            }
        }
    }
}

/// What the last net adds to what the others put.
proof fn lemma_both(
    list: Seq<ComponentView>,
    rest: Seq<Sexp>,
    middle: Seq<ComponentView>,
    nets: Seq<Sexp>,
    done: Seq<ComponentView>,
)
    requires
        nets.len() > 0,
        all_same_but_pads(list, middle),
        all_same_but_pads(middle, done),
        nets.last().value_of("name"@) is Some,
        nodes_fit(middle, nets.last().all("node"@)),
        rest == nets.drop_last(),
        forall|i: int, pin: Seq<char>|
            0 <= i < list.len() ==> #[trigger] is_put(list, rest, middle, i, pin),
        forall|i: int, pin: Seq<char>|
            0 <= i < middle.len() ==> #[trigger] put(
                middle,
                nets.last().value_of("name"@)->0,
                nets.last().all("node"@),
                done,
                i,
                pin,
            ),
        forall|n: int, k: int, r: Seq<char>, p: Seq<char>| #[trigger]
            says(nets, n, k, r, p) <==> says(rest, n, k, r, p) || (n == nets.len() - 1 && 0 <= k
                < nets.last().all("node"@).len() && mentions(nets.last().all("node"@)[k], r, p)),
    ensures
        all_same_but_pads(list, done),
        forall|i: int, pin: Seq<char>|
            0 <= i < list.len() ==> #[trigger] is_put(list, nets, done, i, pin),
{
    let end = nets.len() - 1;
    let nodes = nets.last().all("node"@);
    let net = nets.last().value_of("name"@)->0;
    assert(nets[end] == nets.last());
    assert forall|i: int| 0 <= i < list.len() implies same_but_pads(
        #[trigger] list[i],
        done[i],
    ) by {
        assert(same_but_pads(list[i], middle[i]));
        assert(same_but_pads(middle[i], done[i]));
    }
    assert forall|i: int, pin: Seq<char>| 0 <= i < list.len() implies #[trigger] is_put(
        list,
        nets,
        done,
        i,
        pin,
    ) by {
        let r = list[i].reference;
        assert(same_but_pads(list[i], middle[i]));
        assert(middle[i].reference == r);
        assert(is_put(list, rest, middle, i, pin));
        assert(put(middle, net, nodes, done, i, pin));
        let here = exists|k: int| 0 <= k < nodes.len() && mentions(#[trigger] nodes[k], r, pin);
        if here {
            let k = choose|k: int| 0 <= k < nodes.len() && mentions(#[trigger] nodes[k], r, pin);
            assert(node_fits(middle, nodes[k]));
            assert(!middle[i].pad_nets.contains_key(pin));
            assert(says(nets, end, k, r, pin));
        }
        assert forall|n: int, k: int| #[trigger] says(nets, n, k, r, pin) implies
            done[i].pad_nets.contains_key(pin) && nets[n].value_of("name"@) == Some(
            done[i].pad_nets[pin],
        ) by {
            if n == end && !says(rest, n, k, r, pin) {
                assert(mentions(nodes[k], r, pin));
            } else {
                assert(says(rest, n, k, r, pin));
                assert(rest[n] == nets[n]);
            }
        }
        if forall|n: int, k: int| !#[trigger] says(nets, n, k, r, pin) {
            assert forall|n: int, k: int| !#[trigger] says(rest, n, k, r, pin) by {
                assert(!says(nets, n, k, r, pin));
            }
        }
    }
}

proof fn lemma_same_fit(
    nets: Seq<Sexp>,
    a: spec_fn(Seq<char>) -> bool,
    b: spec_fn(Seq<char>) -> bool,
)
    requires
        forall|r: Seq<char>| #[trigger] a(r) == b(r),
    ensures
        nets_fit(nets, a) == nets_fit(nets, b),
{
    if nets_fit(nets, a) {
        assert forall|n: int, k: int|
            #![trigger nets[n].all("node"@)[k]]
            0 <= n < nets.len() && 0 <= k < nets[n].all("node"@).len() implies {
            let node = nets[n].all("node"@)[k];
            node.value_of("ref"@) is Some && node.value_of("pin"@) is Some && b(
                node.value_of("ref"@)->0,
            )
        } by {
            assert(a(nets[n].all("node"@)[k].value_of("ref"@)->0));
        }
    }
    if nets_fit(nets, b) {
        assert forall|n: int, k: int|
            #![trigger nets[n].all("node"@)[k]]
            0 <= n < nets.len() && 0 <= k < nets[n].all("node"@).len() implies {
            let node = nets[n].all("node"@)[k];
            node.value_of("ref"@) is Some && node.value_of("pin"@) is Some && a(
                node.value_of("ref"@)->0,
            )
        } by {
            assert(b(nets[n].all("node"@)[k].value_of("ref"@)->0));
        }
    }
}

/// Where no pin is taken yet, nets fit the components if they fit.
proof fn lemma_fresh_fit(list: Seq<ComponentView>, nets: Seq<Sexp>)
    requires
        forall|i: int|
            0 <= i < list.len() ==> (#[trigger] list[i]).pad_nets == Map::<
                Seq<char>,
                Seq<char>,
            >::empty(),
    ensures
        fits(list, nets) == nets_fit(nets, |reference: Seq<char>| is_listed(list, reference)),
{
    let known = |reference: Seq<char>| is_listed(list, reference);
    if fits(list, nets) {
        assert forall|n: int, k: int|
            #![trigger nets[n].all("node"@)[k]]
            0 <= n < nets.len() && 0 <= k < nets[n].all("node"@).len() implies {
            let node = nets[n].all("node"@)[k];
            node.value_of("ref"@) is Some && node.value_of("pin"@) is Some && known(
                node.value_of("ref"@)->0,
            )
        } by {
            assert(node_fits(list, nets[n].all("node"@)[k]));
        }
    }
    if nets_fit(nets, known) {
        assert forall|n: int, k: int|
            #![trigger nets[n].all("node"@)[k]]
            0 <= n < nets.len() && 0 <= k < nets[n].all("node"@).len() implies node_fits(
            list,
            nets[n].all("node"@)[k],
        ) by {
            let node = nets[n].all("node"@)[k];
            assert(known(node.value_of("ref"@)->0));
        }
    }
}

/// The text is made of slashes only.
pub open spec fn is_slashes(text: Seq<char>) -> bool {
    forall|i: int| 0 <= i < text.len() ==> #[trigger] text[i] == '/'
}

/// The text neither starts nor ends with a slash, and no two follow each other.
pub open spec fn is_bare(text: Seq<char>) -> bool {
    &&& text.len() > 0 ==> text[0] != '/' && text.last() != '/'
    &&& forall|i: int| 0 <= i < text.len() - 1 ==> !(#[trigger] text[i] == '/' && text[i + 1] == '/')
}

/// A schematic identity is made of the stamps of the sheet and of the symbol,
/// without the slashes round them, each behind one slash. The root sheet has no
/// stamp of its own.
pub proof fn law_a_path_joins_its_stamps(
    before_sheet: Seq<char>,
    sheet: Seq<char>,
    after_sheet: Seq<char>,
    before_symbol: Seq<char>,
    symbol: Seq<char>,
    after_symbol: Seq<char>,
)
    requires
        is_slashes(before_sheet),
        is_slashes(after_sheet),
        is_slashes(before_symbol),
        is_slashes(after_symbol),
        is_bare(sheet),
        is_bare(symbol),
        symbol.len() > 0,
    ensures
        symbol_path_of(
            before_sheet + sheet + after_sheet,
            before_symbol + symbol + after_symbol,
        ) == (if sheet.len() == 0 {
            seq!['/'] + symbol
        } else {
            seq!['/'] + sheet + seq!['/'] + symbol
        }),
{
    reveal_strlit("/");
    assert("/"@ =~= seq!['/']);
    lemma_stripped(before_sheet, sheet, after_sheet);
    lemma_stripped(before_symbol, symbol, after_symbol);
    let whole = seq!['/'] + sheet + seq!['/'] + symbol;
    assert("/"@ + sheet + "/"@ + symbol =~= whole);
    if sheet.len() == 0 {
        assert(whole.skip(2) =~= symbol);
        lemma_no_pairs(symbol);
        assert(pairs_replaced(whole, '/') == seq!['/'] + pairs_replaced(whole.skip(2), '/'));
    } else {
        assert forall|i: int| 0 <= i < whole.len() - 1 implies !(#[trigger] whole[i] == '/'
            && whole[i + 1] == '/') by {
            let n = sheet.len() as int;
            if i == 0 {
                assert(whole[1] == sheet[0]);
            } else if i <= n {
                assert(whole[i] == sheet[i - 1]);
                if i < n {
                    assert(whole[i + 1] == sheet[i]);
                    assert(!(sheet[i - 1] == '/' && sheet[i - 1 + 1] == '/'));
                } else {
                    assert(sheet[n - 1] == sheet.last());
                }
            } else {
                assert(whole[i + 1] == symbol[i - n - 1]);
                if i == n + 1 {
                    assert(symbol[0] != '/');
                } else {
                    assert(whole[i] == symbol[i - n - 2]);
                    assert(!(symbol[i - n - 2] == '/' && symbol[i - n - 2 + 1] == '/'));
                }
            }
        }
        lemma_no_pairs(whole);
    }
}

proof fn lemma_stripped(before: Seq<char>, text: Seq<char>, after: Seq<char>)
    requires
        is_slashes(before),
        is_slashes(after),
        is_bare(text),
    ensures
        trimmed_end(trimmed_start(before + text + after, '/'), '/') == text,
    decreases before.len() + after.len(),
{
    let whole = before + text + after;
    if before.len() > 0 {
        assert(whole[0] == before[0]);
        let less = before.skip(1);
        assert forall|i: int| 0 <= i < less.len() implies #[trigger] less[i] == '/' by {
            assert(less[i] == before[i + 1]);
        }
        assert(whole.skip(1) =~= less + text + after);
        lemma_stripped(less, text, after);
    } else if text.len() == 0 {
        if after.len() > 0 {
            let less = after.skip(1);
            assert forall|i: int| 0 <= i < less.len() implies #[trigger] less[i] == '/' by {
                assert(less[i] == after[i + 1]);
            }
            assert(whole[0] == after[0]);
            assert(whole.skip(1) =~= before + text + less);
            lemma_stripped(before, text, less);
        } else {
            assert(whole =~= text);
        }
    } else {
        assert(whole[0] == text[0]);
        assert(trimmed_start(whole, '/') == whole);
        lemma_end_stripped(text, after);
        assert(whole =~= text + after);
    }
}

/// The slashes at the end go.
pub proof fn lemma_end_stripped(text: Seq<char>, after: Seq<char>)
    requires
        is_slashes(after),
        text.len() > 0,
        text.last() != '/',
    ensures
        trimmed_end(text + after, '/') == text,
    decreases after.len(),
{
    let whole = text + after;
    if after.len() > 0 {
        let less = after.drop_last();
        assert forall|i: int| 0 <= i < less.len() implies #[trigger] less[i] == '/' by {
            assert(less[i] == after[i]);
        }
        assert(whole.last() == after[after.len() - 1]);
        assert(whole.drop_last() =~= text + less);
        lemma_end_stripped(text, less);
    } else {
        assert(whole =~= text);
    }
}

/// A text in which no two slashes follow each other keeps them all.
pub proof fn lemma_no_pairs(text: Seq<char>)
    requires
        forall|i: int|
            0 <= i < text.len() - 1 ==> !(#[trigger] text[i] == '/' && text[i + 1] == '/'),
    ensures
        pairs_replaced(text, '/') == text,
    decreases text.len(),
{
    if text.len() > 0 {
        let rest = text.skip(1);
        assert forall|i: int| 0 <= i < rest.len() - 1 implies !(#[trigger] rest[i] == '/' && rest[i
            + 1] == '/') by {
            assert(!(text[i + 1] == '/' && text[i + 1 + 1] == '/'));
        }
        lemma_no_pairs(rest);
        if text.len() > 1 {
            let first: int = 0;
            assert(!(text[first] == '/' && text[first + 1] == '/'));
        }
        assert(seq![text[0]] + rest =~= text);
    }
}

} // verus!
