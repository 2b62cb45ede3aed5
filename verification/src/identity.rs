//! The byte identity of a netlist's design-bearing sections.
//!
//! An export stamps its date and the exporting tool's version into the header
//! of every netlist. The identity covers the complete `components` and `nets`
//! trees and nothing else, so it stays the same for a design nobody touched.

use crate::sexp::{nodes, Sexp, SexpNode};
use vstd::prelude::*;
use vstd::string::*;
use vstd::utf8::*;

verus! {

/// The low `width` bytes of a number, lowest first.
pub open spec fn le_bytes(value: nat, width: nat) -> Seq<u8>
    decreases width,
{
    if width == 0 {
        Seq::empty()
    } else {
        seq![(value % 256) as u8] + le_bytes(value / 256, (width - 1) as nat)
    }
}

/// A byte string with its length before it.
pub open spec fn sized_bytes(value: Seq<u8>) -> Seq<u8> {
    le_bytes(value.len(), 8) + value
}

/// The bytes that stand for a tree: a marker for the sort of node, then its
/// text with its length, or the number of its items and each of them.
pub open spec fn tree_identity(node: Sexp) -> Seq<u8>
    decreases node,
{
    match node {
        Sexp::Atom(value) => seq![0u8] + sized_bytes(encode_utf8(value)),
        Sexp::Str(value) => seq![1u8] + sized_bytes(encode_utf8(value)),
        Sexp::List(children) => seq![2u8] + le_bytes(children.len(), 8) + items_identity(
            children,
            children.len(),
        ),
    }
}

/// The bytes that stand for the first `count` items of a list.
pub open spec fn items_identity(items: Seq<Sexp>, count: nat) -> Seq<u8>
    decreases items, count,
{
    if count == 0 || count > items.len() {
        Seq::empty()
    } else {
        items_identity(items, (count - 1) as nat) + tree_identity(items[count - 1])
    }
}

/// The bytes that stand for a section that may be missing.
pub open spec fn section_identity(section: Option<Sexp>) -> Seq<u8> {
    match section {
        Some(node) => seq![1u8] + tree_identity(node),
        None => seq![0u8],
    }
}

/// The identity of a parsed netlist.
pub open spec fn design_identity(root: Sexp) -> Seq<u8> {
    section_identity(root.first("components"@)) + section_identity(root.first("nets"@))
}

/// The identity of a netlist: that of its tree, or its text where the text is
/// no S-expression.
pub open spec fn netlist_bytes(source: Seq<char>, root: Option<Sexp>) -> Seq<u8> {
    match root {
        Some(tree) => design_identity(tree),
        None => encode_utf8(source),
    }
}

/// Appends the eight bytes of a number, lowest first.
pub fn append_le_bytes(value: u64, identity: &mut Vec<u8>)
    ensures
        final(identity)@ == old(identity)@ + le_bytes(value as nat, 8),
{
    let mut rest: u64 = value;
    let mut left: u8 = 8;
    let ghost before = identity@;
    while left > 0
        invariant
            left <= 8,
            before + le_bytes(value as nat, 8) == identity@ + le_bytes(rest as nat, left as nat),
        decreases left,
    {
        let ghost now = identity@;
        identity.push((rest % 256) as u8);
        proof {
            let tail = le_bytes((rest / 256) as nat, (left - 1) as nat);
            assert(le_bytes(rest as nat, left as nat) == seq![(rest % 256) as u8] + tail);
            assert(now + (seq![(rest % 256) as u8] + tail) =~= identity@ + tail);
        }
        rest = rest / 256;
        left = left - 1;
    }
    assert(identity@ + le_bytes(rest as nat, 0) =~= identity@);
}

/// Appends a byte string with its length before it.
pub fn append_identity_bytes(value: &[u8], identity: &mut Vec<u8>)
    ensures
        final(identity)@ == old(identity)@ + sized_bytes(value@),
{
    let ghost before = identity@;
    append_le_bytes(value.len() as u64, identity);
    identity.extend_from_slice(value);
    assert(identity@ =~= before + sized_bytes(value@));
}

/// Appends the bytes that stand for a tree.
pub fn append_sexp_identity(node: &SexpNode, identity: &mut Vec<u8>)
    ensures
        final(identity)@ == old(identity)@ + tree_identity(node@),
    decreases node,
{
    let ghost before = identity@;
    match node {
        SexpNode::Atom(value) => {
            identity.push(0);
            append_identity_bytes(value.as_str().as_bytes(), identity);
            assert(identity@ =~= before + tree_identity(node@));
        },
        SexpNode::Str(value) => {
            identity.push(1);
            append_identity_bytes(value.as_str().as_bytes(), identity);
            assert(identity@ =~= before + tree_identity(node@));
        },
        SexpNode::List(children) => {
            let ghost items = node@.items();
            identity.push(2);
            append_le_bytes(children.len() as u64, identity);
            let ghost head = identity@;
            assert(head =~= before + (seq![2u8] + le_bytes(items.len(), 8)));
            assert(head + items_identity(items, 0) =~= head);
            let mut i: usize = 0;
            while i < children.len()
                invariant
                    i <= children.len(),
                    *node == SexpNode::List(*children),
                    items == nodes(children@),
                    identity@ == head + items_identity(items, i as nat),
                decreases children.len() - i,
            {
                assert(decreases_to!(*node => node->List_0));
                assert(decreases_to!(*children => children@[i as int]));
                append_sexp_identity(&children[i], identity);
                proof {
                    assert(items_identity(items, (i + 1) as nat) == items_identity(items, i as nat)
                        + tree_identity(items[i as int]));
                    assert(identity@ =~= head + items_identity(items, (i + 1) as nat));
                }
                i += 1;
            }
            assert(identity@ =~= before + tree_identity(node@));
        },
    }
}

fn append_section(root: &SexpNode, tag: &str, identity: &mut Vec<u8>)
    ensures
        final(identity)@ == old(identity)@ + section_identity(root@.first(tag@)),
{
    let ghost before = identity@;
    match root.find(tag) {
        Some(node) => {
            identity.push(1);
            append_sexp_identity(node, identity);
            assert(identity@ =~= before + (seq![1u8] + tree_identity(node@)));
        },
        None => {
            identity.push(0);
            assert(identity@ =~= before + seq![0u8]);
        },
    }
}

/// A stable identity for the design-bearing sections of a netlist. `root` is
/// the tree of `source`, or `None` where `source` is no S-expression: then the
/// text itself is the identity.
pub fn netlist_identity(source: &str, root: &Option<SexpNode>) -> (res: Vec<u8>)
    ensures
        res@ == netlist_bytes(
            source@,
            match root {
                Some(tree) => Some(tree@),
                None => None,
            },
        ),
{
    let mut identity: Vec<u8> = Vec::new();
    match root {
        Some(tree) => {
            append_section(tree, "components", &mut identity);
            append_section(tree, "nets", &mut identity);
            assert(identity@ =~= design_identity(tree@));
        },
        None => {
            identity.extend_from_slice(source.as_bytes());
            assert(identity@ =~= encode_utf8(source@));
        },
    }
    identity
}

/// Every text and every list of the tree has a length that eight bytes hold.
pub open spec fn countable(node: Sexp) -> bool
    decreases node,
{
    match node {
        Sexp::Atom(value) => encode_utf8(value).len() <= u64::MAX,
        Sexp::Str(value) => encode_utf8(value).len() <= u64::MAX,
        Sexp::List(children) => children.len() <= u64::MAX && forall|i: int|
            0 <= i < children.len() ==> countable(#[trigger] children[i]),
    }
}

proof fn lemma_le_bytes_injective(a: nat, b: nat, width: nat)
    requires
        le_bytes(a, width) == le_bytes(b, width),
        a < vstd::arithmetic::power::pow(256, width),
        b < vstd::arithmetic::power::pow(256, width),
    ensures
        a == b,
    decreases width,
{
    reveal(vstd::arithmetic::power::pow);
    if width > 0 {
        let x = le_bytes(a / 256, (width - 1) as nat);
        let y = le_bytes(b / 256, (width - 1) as nat);
        assert(le_bytes(a, width)[0] == (a % 256) as u8);
        assert(le_bytes(b, width)[0] == (b % 256) as u8);
        assert(le_bytes(a, width).skip(1) =~= x);
        assert(le_bytes(b, width).skip(1) =~= y);
        lemma_le_bytes_injective(a / 256, b / 256, (width - 1) as nat);
    }
}

proof fn lemma_le_bytes_length(value: nat, width: nat)
    ensures
        le_bytes(value, width).len() == width,
    decreases width,
{
    if width > 0 {
        lemma_le_bytes_length(value / 256, (width - 1) as nat);
    }
}

/// Two texts each with its length in front, and more behind them, can be told
/// apart.
proof fn lemma_sized_prefix(a: Seq<u8>, x: Seq<u8>, b: Seq<u8>, y: Seq<u8>)
    requires
        sized_bytes(a) + x == sized_bytes(b) + y,
        a.len() <= u64::MAX,
        b.len() <= u64::MAX,
    ensures
        a == b,
        x == y,
{
    let left = sized_bytes(a) + x;
    let right = sized_bytes(b) + y;
    lemma_le_bytes_length(a.len(), 8);
    lemma_le_bytes_length(b.len(), 8);
    assert(left.take(8) =~= le_bytes(a.len(), 8));
    assert(right.take(8) =~= le_bytes(b.len(), 8));
    lemma_pow_256_8();
    lemma_le_bytes_injective(a.len(), b.len(), 8);
    let n = a.len() as int;
    assert(left.subrange(8, 8 + n) =~= a);
    assert(right.subrange(8, 8 + n) =~= b);
    assert(left.skip(8 + n) =~= x);
    assert(right.skip(8 + n) =~= y);
}

proof fn lemma_pow_256_8()
    ensures
        vstd::arithmetic::power::pow(256, 8) == 0x1_0000_0000_0000_0000,
{
    reveal_with_fuel(vstd::arithmetic::power::pow, 9);
}

proof fn lemma_tree_prefix(a: Sexp, x: Seq<u8>, b: Sexp, y: Seq<u8>)
    requires
        countable(a),
        countable(b),
        tree_identity(a) + x == tree_identity(b) + y,
    ensures
        a == b,
        x == y,
    decreases a, 0nat,
{
    let left = tree_identity(a) + x;
    let right = tree_identity(b) + y;
    assert(left[0] == tree_identity(a)[0]);
    assert(right[0] == tree_identity(b)[0]);
    match (a, b) {
        (Sexp::Atom(s), Sexp::Atom(t)) => {
            assert(left.skip(1) =~= sized_bytes(encode_utf8(s)) + x);
            assert(right.skip(1) =~= sized_bytes(encode_utf8(t)) + y);
            lemma_sized_prefix(encode_utf8(s), x, encode_utf8(t), y);
            encode_utf8_decode_utf8(s);
            encode_utf8_decode_utf8(t);
        },
        (Sexp::Str(s), Sexp::Str(t)) => {
            assert(left.skip(1) =~= sized_bytes(encode_utf8(s)) + x);
            assert(right.skip(1) =~= sized_bytes(encode_utf8(t)) + y);
            lemma_sized_prefix(encode_utf8(s), x, encode_utf8(t), y);
            encode_utf8_decode_utf8(s);
            encode_utf8_decode_utf8(t);
        },
        (Sexp::List(s), Sexp::List(t)) => {
            lemma_le_bytes_length(s.len(), 8);
            lemma_le_bytes_length(t.len(), 8);
            assert(left.subrange(1, 9) =~= le_bytes(s.len(), 8));
            assert(right.subrange(1, 9) =~= le_bytes(t.len(), 8));
            lemma_pow_256_8();
            lemma_le_bytes_injective(s.len(), t.len(), 8);
            assert(left.skip(9) =~= items_identity(s, s.len()) + x);
            assert(right.skip(9) =~= items_identity(t, t.len()) + y);
            lemma_items_suffix_empty(s);
            lemma_items_suffix_empty(t);
            lemma_items_split(s, 0);
            lemma_items_split(t, 0);
            lemma_items_prefix(s, x, t, y, 0);
            assert(s =~= t);
        },
        _ => {},
    }
}

/// The bytes of the items from `from` on.
spec fn tail_identity(items: Seq<Sexp>, from: nat) -> Seq<u8>
    decreases items.len() - from,
{
    if from >= items.len() {
        Seq::empty()
    } else {
        tree_identity(items[from as int]) + tail_identity(items, from + 1)
    }
}

proof fn lemma_items_suffix_empty(items: Seq<Sexp>)
    ensures
        items_identity(items, 0) == Seq::<u8>::empty(),
{
}

proof fn lemma_items_split(items: Seq<Sexp>, from: nat)
    requires
        from <= items.len(),
    ensures
        items_identity(items, items.len()) == items_identity(items, from) + tail_identity(
            items,
            from,
        ),
    decreases items.len() - from,
{
    if from == items.len() {
        assert(items_identity(items, from) + Seq::<u8>::empty() =~= items_identity(items, from));
    } else {
        lemma_items_split(items, from + 1);
        assert(items_identity(items, from + 1) == items_identity(items, from) + tree_identity(
            items[from as int],
        ));
        assert(items_identity(items, from + 1) + tail_identity(items, from + 1)
            =~= items_identity(items, from) + tail_identity(items, from));
    }
}

proof fn lemma_items_prefix(s: Seq<Sexp>, x: Seq<u8>, t: Seq<Sexp>, y: Seq<u8>, from: nat)
    requires
        s.len() == t.len(),
        from <= s.len(),
        forall|i: int| 0 <= i < s.len() ==> countable(#[trigger] s[i]),
        forall|i: int| 0 <= i < t.len() ==> countable(#[trigger] t[i]),
        tail_identity(s, from) + x == tail_identity(t, from) + y,
    ensures
        x == y,
        forall|i: int| from <= i < s.len() ==> #[trigger] s[i] == t[i],
    decreases s, s.len() - from,
{
    if from == s.len() {
        assert(tail_identity(s, from) + x =~= x);
        assert(tail_identity(t, from) + y =~= y);
    } else {
        let p = tail_identity(s, from + 1) + x;
        let q = tail_identity(t, from + 1) + y;
        assert(tail_identity(s, from) + x =~= tree_identity(s[from as int]) + p);
        assert(tail_identity(t, from) + y =~= tree_identity(t[from as int]) + q);
        lemma_tree_prefix(s[from as int], p, t[from as int], q);
        lemma_items_prefix(s, x, t, y, from + 1);
    }
}

/// The identity tells designs apart: two netlists with the same identity have
/// the same components and the same nets, nested and quoted content included.
pub proof fn law_identity_covers_the_design(a: Sexp, b: Sexp)
    requires
        forall|tag: Seq<char>| #[trigger]
            a.first(tag) matches Some(node) ==> countable(node),
        forall|tag: Seq<char>| #[trigger]
            b.first(tag) matches Some(node) ==> countable(node),
        design_identity(a) == design_identity(b),
    ensures
        a.first("components"@) == b.first("components"@),
        a.first("nets"@) == b.first("nets"@),
{
    let (s, t) = (a.first("components"@), b.first("components"@));
    let (u, v) = (a.first("nets"@), b.first("nets"@));
    lemma_section_prefix(s, section_identity(u), t, section_identity(v));
    assert(section_identity(u) + Seq::<u8>::empty() =~= section_identity(v) + Seq::<u8>::empty());
    lemma_section_prefix(u, Seq::empty(), v, Seq::empty());
}

proof fn lemma_section_prefix(a: Option<Sexp>, x: Seq<u8>, b: Option<Sexp>, y: Seq<u8>)
    requires
        a matches Some(node) ==> countable(node),
        b matches Some(node) ==> countable(node),
        section_identity(a) + x == section_identity(b) + y,
    ensures
        a == b,
        x == y,
{
    let left = section_identity(a) + x;
    let right = section_identity(b) + y;
    assert(left[0] == section_identity(a)[0]);
    assert(right[0] == section_identity(b)[0]);
    match (a, b) {
        (Some(m), Some(n)) => {
            assert(left.skip(1) =~= tree_identity(m) + x);
            assert(right.skip(1) =~= tree_identity(n) + y);
            lemma_tree_prefix(m, x, n, y);
        },
        (None, None) => {
            assert(left.skip(1) =~= x);
            assert(right.skip(1) =~= y);
        },
        _ => {},
    }
}

/// The identity reads nothing but the two sections: netlists that differ in
/// their header alone (export date, tool version) have the same identity.
pub proof fn law_identity_ignores_the_header(a: Sexp, b: Sexp)
    requires
        a.first("components"@) == b.first("components"@),
        a.first("nets"@) == b.first("nets"@),
    ensures
        design_identity(a) == design_identity(b),
{
}

} // verus!
