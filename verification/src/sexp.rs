//! The tree of an S-expression, and looking things up in it by tag.

use crate::text::{owned, text_eq};
use vstd::prelude::*;

verus! {

/// A parsed S-expression: a bare word, a quoted string or a list.
#[derive(PartialEq, Eq, Debug)]
pub enum SexpNode {
    Atom(String),
    Str(String),
    List(Vec<SexpNode>),
}

/// The mathematical tree of a [`SexpNode`].
pub enum Sexp {
    Atom(Seq<char>),
    Str(Seq<char>),
    List(Seq<Sexp>),
}

impl View for SexpNode {
    type V = Sexp;

    open spec fn view(&self) -> Sexp
        decreases self,
    {
        match self {
            SexpNode::Atom(value) => Sexp::Atom(value@),
            SexpNode::Str(value) => Sexp::Str(value@),
            SexpNode::List(children) => Sexp::List(
                Seq::new(
                    children@.len(),
                    |i: int|
                        if 0 <= i < children@.len() {
                            children@[i].view()
                        } else {
                            Sexp::List(Seq::empty())
                        },
                ),
            ),
        }
    }
}

/// The views of a list of nodes.
pub open spec fn nodes(list: Seq<SexpNode>) -> Seq<Sexp> {
    Seq::new(list.len(), |i: int| list[i]@)
}

impl Sexp {
    /// The text of a word or a quoted string.
    pub open spec fn text(self) -> Option<Seq<char>> {
        match self {
            Sexp::Atom(value) => Some(value),
            Sexp::Str(value) => Some(value),
            Sexp::List(_) => None,
        }
    }

    /// The items of a list; a word or a string has none.
    pub open spec fn items(self) -> Seq<Sexp> {
        match self {
            Sexp::List(children) => children,
            _ => Seq::empty(),
        }
    }

    /// Whether this is a list that starts with the text `tag`.
    pub open spec fn tagged(self, tag: Seq<char>) -> bool {
        self.items().len() > 0 && self.items()[0].text() == Some(tag)
    }

    /// The items that are lists starting with `tag`, in order.
    pub open spec fn all(self, tag: Seq<char>) -> Seq<Sexp> {
        with_tag(self.items(), tag)
    }

    /// The first item that is a list starting with `tag`.
    pub open spec fn first(self, tag: Seq<char>) -> Option<Sexp> {
        if self.all(tag).len() > 0 {
            Some(self.all(tag)[0])
        } else {
            None
        }
    }

    /// The item at a position.
    pub open spec fn item(self, index: int) -> Option<Sexp> {
        if 0 <= index < self.items().len() {
            Some(self.items()[index])
        } else {
            None
        }
    }

    /// The text at a position.
    pub open spec fn text_at(self, index: int) -> Option<Seq<char>> {
        match self.item(index) {
            Some(item) => item.text(),
            None => None,
        }
    }

    /// The text that follows `tag` in the first item that starts with it.
    pub open spec fn value_of(self, tag: Seq<char>) -> Option<Seq<char>> {
        match self.first(tag) {
            Some(item) => item.text_at(1),
            None => None,
        }
    }
}

/// Those of the nodes that are lists starting with `tag`, in order.
pub open spec fn with_tag(list: Seq<Sexp>, tag: Seq<char>) -> Seq<Sexp>
    decreases list.len(),
{
    if list.len() == 0 {
        Seq::empty()
    } else if list.last().tagged(tag) {
        with_tag(list.drop_last(), tag).push(list.last())
    } else {
        with_tag(list.drop_last(), tag)
    }
}

/// The text of an optional string slice.
pub open spec fn opt_str(value: Option<&str>) -> Option<Seq<char>> {
    match value {
        Some(text) => Some(text@),
        None => None,
    }
}

/// The view of an optional node.
pub open spec fn opt_node(value: Option<&SexpNode>) -> Option<Sexp> {
    match value {
        Some(node) => Some(node@),
        None => None,
    }
}

/// The views of a list of borrowed nodes.
pub open spec fn node_refs(list: Seq<&SexpNode>) -> Seq<Sexp> {
    Seq::new(list.len(), |i: int| list[i]@)
}

impl SexpNode {
    /// The text of a word or a quoted string.
    pub fn as_str(&self) -> (res: Option<&str>)
        ensures
            opt_str(res) == self@.text(),
    {
        match self {
            SexpNode::Atom(value) => Some(value.as_str()),
            SexpNode::Str(value) => Some(value.as_str()),
            SexpNode::List(_) => None,
        }
    }

    /// The item at a position of a list.
    pub fn get(&self, index: usize) -> (res: Option<&SexpNode>)
        ensures
            opt_node(res) == self@.item(index as int),
    {
        match self {
            SexpNode::List(children) => {
                if index < children.len() {
                    Some(&children[index])
                } else {
                    None
                }
            },
            _ => None,
        }
    }

    /// Whether this is a list that starts with `tag`.
    pub fn is_tagged(&self, tag: &str) -> (res: bool)
        ensures
            res == self@.tagged(tag@),
    {
        match self.get(0) {
            Some(head) => match head.as_str() {
                Some(text) => text_eq(text, tag),
                None => false,
            },
            None => false,
        }
    }

    /// The items that are lists starting with `tag`, in order.
    pub fn find_all(&self, tag: &str) -> (res: Vec<&SexpNode>)
        ensures
            node_refs(res@) == self@.all(tag@),
    {
        let mut res: Vec<&SexpNode> = Vec::new();
        match self {
            SexpNode::List(children) => {
                let ghost items = self@.items();
                let mut i: usize = 0;
                assert(items.take(0) =~= Seq::empty());
                assert(node_refs(res@) =~= Seq::<Sexp>::empty());
                while i < children.len()
                    invariant
                        i <= children.len(),
                        items == nodes(children@),
                        node_refs(res@) == with_tag(items.take(i as int), tag@),
                    decreases children.len() - i,
                {
                    let child = &children[i];
                    let ghost before = node_refs(res@);
                    assert(items.take(i + 1).drop_last() =~= items.take(i as int));
                    assert(items.take(i + 1).last() == child@);
                    if child.is_tagged(tag) {
                        res.push(child);
                        assert(node_refs(res@) =~= before.push(child@));
                    }
                    i += 1;
                }
                assert(items.take(i as int) =~= items);
            },
            _ => {
                assert(node_refs(res@) =~= Seq::<Sexp>::empty());
            },
        }
        res
    }

    /// The first item that is a list starting with `tag`.
    pub fn find(&self, tag: &str) -> (res: Option<&SexpNode>)
        ensures
            opt_node(res) == self@.first(tag@),
    {
        let all = self.find_all(tag);
        assert(node_refs(all@).len() == all@.len());
        if all.len() > 0 {
            assert(node_refs(all@)[0] == all@[0]@);
            Some(all[0])
        } else {
            None
        }
    }

    /// The text at a position of a list.
    pub fn str_at(&self, index: usize) -> (res: Option<&str>)
        ensures
            opt_str(res) == self@.text_at(index as int),
    {
        match self.get(index) {
            Some(item) => item.as_str(),
            None => None,
        }
    }

    /// The text that follows `tag` in the first item that starts with it.
    pub fn find_str(&self, tag: &str) -> (res: Option<&str>)
        ensures
            opt_str(res) == self@.value_of(tag@),
    {
        match self.find(tag) {
            Some(item) => item.str_at(1),
            None => None,
        }
    }
}

/// A quoted string node.
pub fn quoted(text: &str) -> (res: SexpNode)
    ensures
        res@ == Sexp::Str(text@),
{
    SexpNode::Str(owned(text))
}

} // verus!
