//! Comparing, ordering and building text.

use vstd::prelude::*;
use vstd::string::*;
use vstd::utf8::*;

verus! {

/// `a` comes before `b` in byte order: at the first position where they part,
/// `a` has ended or holds the smaller byte.
pub open spec fn bytes_before(a: Seq<u8>, b: Seq<u8>) -> bool {
    exists|i: int| #[trigger] parts_at(a, b, i)
}

/// The two byte strings agree below `i` and `a` is the smaller one at `i`.
pub open spec fn parts_at(a: Seq<u8>, b: Seq<u8>, i: int) -> bool {
    &&& 0 <= i <= a.len()
    &&& i < b.len()
    &&& forall|j: int| 0 <= j < i ==> a[j] == b[j]
    &&& i == a.len() || a[i] < b[i]
}

/// The order of text: that of its UTF-8 bytes.
pub open spec fn text_before(a: Seq<char>, b: Seq<char>) -> bool {
    bytes_before(encode_utf8(a), encode_utf8(b))
}

/// The characters of each string of a list.
pub open spec fn texts(list: Seq<String>) -> Seq<Seq<char>> {
    Seq::new(list.len(), |i: int| list[i]@)
}

/// The characters of an optional string.
pub open spec fn opt_text(value: Option<String>) -> Option<Seq<char>> {
    match value {
        Some(text) => Some(text@),
        None => None,
    }
}

/// The list is in strictly increasing text order, so nothing occurs twice.
pub open spec fn strictly_ordered(list: Seq<Seq<char>>) -> bool {
    forall|i: int, j: int| 0 <= i < j < list.len() ==> text_before(list[i], list[j])
}

/// Nothing comes before itself.
pub proof fn lemma_text_before_irreflexive(a: Seq<char>)
    ensures
        !text_before(a, a),
{
}

/// The order is transitive.
pub proof fn lemma_text_before_transitive(a: Seq<char>, b: Seq<char>, c: Seq<char>)
    requires
        text_before(a, b),
        text_before(b, c),
    ensures
        text_before(a, c),
{
    let (x, y, z) = (encode_utf8(a), encode_utf8(b), encode_utf8(c));
    let i = choose|i: int| parts_at(x, y, i);
    let j = choose|j: int| parts_at(y, z, j);
    if i <= j {
        assert(parts_at(x, z, i));
    } else {
        assert(parts_at(x, z, j));
    }
}

/// Of two different texts one comes before the other.
pub proof fn lemma_text_before_total(a: Seq<char>, b: Seq<char>)
    ensures
        a == b || text_before(a, b) || text_before(b, a),
{
    let (x, y) = (encode_utf8(a), encode_utf8(b));
    encode_utf8_decode_utf8(a);
    encode_utf8_decode_utf8(b);
    lemma_first_difference(x, y, 0);
}

proof fn lemma_first_difference(x: Seq<u8>, y: Seq<u8>, i: int)
    requires
        0 <= i <= x.len(),
        i <= y.len(),
        forall|j: int| 0 <= j < i ==> x[j] == y[j],
    ensures
        x == y || bytes_before(x, y) || bytes_before(y, x),
    decreases x.len() - i,
{
    if i == x.len() && i == y.len() {
        assert(x =~= y);
    } else if i == x.len() || i == y.len() || x[i] != y[i] {
        if i < y.len() && (i == x.len() || x[i] < y[i]) {
            assert(parts_at(x, y, i));
        } else {
            assert(parts_at(y, x, i));
        }
    } else {
        lemma_first_difference(x, y, i + 1);
    }
}

/// The members of a set in text order, each once.
pub open spec fn ordered_list_of(members: Set<Seq<char>>) -> Seq<Seq<char>> {
    choose|list: Seq<Seq<char>>| #[trigger]
        strictly_ordered(list) && forall|x: Seq<char>| list.contains(x) <==> members.contains(x)
}

/// There is only one way to put a set in order.
pub proof fn lemma_ordered_list(list: Seq<Seq<char>>, members: Set<Seq<char>>)
    requires
        strictly_ordered(list),
        forall|x: Seq<char>| list.contains(x) <==> members.contains(x),
    ensures
        ordered_list_of(members) == list,
{
    lemma_ordered_unique(ordered_list_of(members), list);
}

/// Puts one more text into an ordered list.
spec fn placed(list: Seq<Seq<char>>, text: Seq<char>) -> Seq<Seq<char>>
    decreases list.len(),
{
    if list.len() == 0 || text_before(list.last(), text) {
        list.push(text)
    } else if list.last() == text {
        list
    } else {
        placed(list.drop_last(), text).push(list.last())
    }
}

proof fn lemma_placed(list: Seq<Seq<char>>, text: Seq<char>)
    requires
        strictly_ordered(list),
    ensures
        strictly_ordered(placed(list, text)),
        forall|x: Seq<char>| #[trigger]
            placed(list, text).contains(x) <==> (list.contains(x) || x == text),
    decreases list.len(),
{
    let res = placed(list, text);
    if list.len() == 0 || text_before(list.last(), text) {
        assert forall|i: int, j: int| 0 <= i < j < res.len() implies text_before(
            res[i],
            res[j],
        ) by {
            if j == list.len() && i < list.len() - 1 {
                lemma_text_before_transitive(list[i], list.last(), text);
            }
        }
        assert forall|x: Seq<char>| #[trigger]
            res.contains(x) <==> (list.contains(x) || x == text) by {
            if list.contains(x) {
                let i = list.index_of(x);
                assert(res[i] == x);
            }
            if x == text {
                assert(res[list.len() as int] == x);
            }
        }
    } else if list.last() == text {
        assert(list[list.len() - 1] == text);
    } else {
        let rest = list.drop_last();
        let last = list.last();
        lemma_placed(rest, text);
        let inner = placed(rest, text);
        lemma_text_before_total(last, text);
        assert forall|i: int, j: int| 0 <= i < j < res.len() implies text_before(
            res[i],
            res[j],
        ) by {
            assert(res[i] == inner[i]);
            if j == inner.len() {
                assert(inner.contains(inner[i]));
                if inner[i] != text {
                    let m = rest.index_of(inner[i]);
                    assert(list[m] == inner[i]);
                    assert(list[list.len() - 1] == last);
                }
            } else {
                assert(res[j] == inner[j]);
            }
        }
        assert forall|x: Seq<char>| #[trigger]
            res.contains(x) <==> (list.contains(x) || x == text) by {
            if res.contains(x) {
                let i = res.index_of(x);
                if i < inner.len() {
                    assert(inner[i] == x);
                    assert(inner.contains(x));
                    if x != text {
                        assert(list[rest.index_of(x)] == x);
                    }
                } else {
                    assert(list[list.len() - 1] == x);
                }
            }
            if list.contains(x) {
                let i = list.index_of(x);
                if i < rest.len() {
                    assert(rest[i] == x);
                    assert(inner.contains(x));
                    assert(res[inner.index_of(x)] == x);
                } else {
                    assert(res[inner.len() as int] == x);
                }
            }
            if x == text {
                assert(inner.contains(x));
                assert(res[inner.index_of(x)] == x);
            }
        }
    }
}

spec fn merged(list: Seq<Seq<char>>, more: Seq<Seq<char>>) -> Seq<Seq<char>>
    decreases more.len(),
{
    if more.len() == 0 {
        list
    } else {
        placed(merged(list, more.drop_last()), more.last())
    }
}

proof fn lemma_merged(list: Seq<Seq<char>>, more: Seq<Seq<char>>)
    requires
        strictly_ordered(list),
    ensures
        strictly_ordered(merged(list, more)),
        forall|x: Seq<char>| #[trigger]
            merged(list, more).contains(x) <==> (list.contains(x) || more.contains(x)),
    decreases more.len(),
{
    if more.len() > 0 {
        let rest = more.drop_last();
        lemma_merged(list, rest);
        lemma_placed(merged(list, rest), more.last());
        assert forall|x: Seq<char>| #[trigger]
            merged(list, more).contains(x) <==> (list.contains(x) || more.contains(x)) by {
            assert(merged(list, more).contains(x) <==> (merged(list, rest).contains(x) || x
                == more.last()));
            if more.contains(x) {
                let i = more.index_of(x);
                if i < rest.len() {
                    assert(rest[i] == x);
                }
            }
            if rest.contains(x) {
                assert(more[rest.index_of(x)] == x);
            }
            if x == more.last() {
                assert(more[more.len() - 1] == x);
            }
        }
    }
}

/// The members of two lists, the first of them ordered, can be put in order.
pub proof fn lemma_can_be_ordered(
    list: Seq<Seq<char>>,
    more: Seq<Seq<char>>,
    members: Set<Seq<char>>,
)
    requires
        strictly_ordered(list),
        forall|x: Seq<char>| members.contains(x) <==> (list.contains(x) || more.contains(x)),
    ensures
        strictly_ordered(ordered_list_of(members)),
        forall|x: Seq<char>| #[trigger]
            ordered_list_of(members).contains(x) <==> members.contains(x),
{
    lemma_merged(list, more);
    lemma_ordered_list(merged(list, more), members);
}

/// Two strictly ordered lists with the same members are the same list.
pub proof fn lemma_ordered_unique(a: Seq<Seq<char>>, b: Seq<Seq<char>>)
    requires
        strictly_ordered(a),
        strictly_ordered(b),
        forall|x: Seq<char>| a.contains(x) <==> b.contains(x),
    ensures
        a == b,
    decreases a.len(),
{
    if a.len() == 0 {
        if b.len() > 0 {
            assert(b.contains(b[0]));
        }
        assert(a =~= b);
    } else {
        let first = a[0];
        assert(a.contains(first));
        let k = choose|k: int| 0 <= k < b.len() && b[k] == first;
        assert(b.contains(b[0]));
        let m = choose|m: int| 0 <= m < a.len() && a[m] == b[0];
        lemma_text_before_irreflexive(first);
        if k > 0 {
            assert(text_before(b[0], b[k]));
            if m > 0 {
                assert(text_before(a[0], a[m]));
                lemma_text_before_transitive(a[0], b[0], first);
            }
        }
        let (x, y) = (a.drop_first(), b.drop_first());
        assert forall|t: Seq<char>| x.contains(t) <==> y.contains(t) by {
            if x.contains(t) {
                let i = choose|i: int| 0 <= i < x.len() && x[i] == t;
                assert(a[i + 1] == t);
                assert(text_before(a[0], a[i + 1]));
                assert(b.contains(t));
                let j = choose|j: int| 0 <= j < b.len() && b[j] == t;
                assert(y[j - 1] == t);
            }
            if y.contains(t) {
                let i = choose|i: int| 0 <= i < y.len() && y[i] == t;
                assert(b[i + 1] == t);
                assert(text_before(b[0], b[i + 1]));
                assert(a.contains(t));
                let j = choose|j: int| 0 <= j < a.len() && a[j] == t;
                assert(x[j - 1] == t);
            }
        }
        lemma_ordered_unique(x, y);
        assert(a =~= seq![first] + x);
        assert(b =~= seq![first] + y);
    }
}

/// Whether two byte strings are equal.
pub fn bytes_eq(a: &[u8], b: &[u8]) -> (res: bool)
    ensures
        res == (a@ == b@),
{
    if a.len() != b.len() {
        return false;
    }
    let mut i: usize = 0;
    while i < a.len()
        invariant
            i <= a.len(),
            a.len() == b.len(),
            forall|j: int| 0 <= j < i ==> a@[j] == b@[j],
        decreases a.len() - i,
    {
        if a[i] != b[i] {
            return false;
        }
        i += 1;
    }
    assert(a@ =~= b@);
    true
}

/// Whether two strings hold the same characters.
pub fn text_eq(a: &str, b: &str) -> (res: bool)
    ensures
        res == (a@ == b@),
{
    let res = bytes_eq(a.as_bytes(), b.as_bytes());
    proof {
        encode_utf8_decode_utf8(a@);
        encode_utf8_decode_utf8(b@);
    }
    res
}

/// Whether `a` comes before `b` in text order.
pub fn text_less(a: &str, b: &str) -> (res: bool)
    ensures
        res == text_before(a@, b@),
{
    let x = a.as_bytes();
    let y = b.as_bytes();
    let mut i: usize = 0;
    while i < x.len() && i < y.len()
        invariant
            i <= x.len(),
            i <= y.len(),
            x@ == encode_utf8(a@),
            y@ == encode_utf8(b@),
            forall|j: int| 0 <= j < i ==> x@[j] == y@[j],
        decreases x.len() - i,
    {
        if x[i] != y[i] {
            if x[i] < y[i] {
                assert(parts_at(x@, y@, i as int));
                return true;
            }
            assert forall|k: int| !parts_at(x@, y@, k) by {
                if parts_at(x@, y@, k) {
                    if k > i {
                        assert(x@[i as int] == y@[i as int]);
                    }
                }
            }
            return false;
        }
        i += 1;
    }
    if i < y.len() {
        assert(parts_at(x@, y@, i as int));
        true
    } else {
        false
    }
}

/// A new string with the characters of `text`.
pub fn owned(text: &str) -> (res: String)
    ensures
        res@ == text@,
{
    String::from_str(text)
}

/// A copy of an optional string.
pub fn clone_opt(value: &Option<String>) -> (res: Option<String>)
    ensures
        res == *value,
{
    match value {
        Some(text) => Some(text.clone()),
        None => None,
    }
}

/// Whether two optional strings are both absent, or both present and equal.
pub fn opt_eq(a: &Option<String>, b: &Option<String>) -> (res: bool)
    ensures
        res == (opt_text(*a) == opt_text(*b)),
{
    match (a, b) {
        (Some(x), Some(y)) => *x == *y,
        (None, None) => true,
        _ => false,
    }
}


/// Joins two pieces of text.
pub fn concat2(a: &str, b: &str) -> (res: String)
    ensures
        res@ == a@ + b@,
{
    let mut res = String::from_str(a);
    res.append(b);
    res
}

/// Joins three pieces of text.
pub fn concat3(a: &str, b: &str, c: &str) -> (res: String)
    ensures
        res@ == a@ + b@ + c@,
{
    let mut res = String::from_str(a);
    res.append(b);
    res.append(c);
    res
}

/// Joins five pieces of text.
pub fn concat5(a: &str, b: &str, c: &str, d: &str, e: &str) -> (res: String)
    ensures
        res@ == a@ + b@ + c@ + d@ + e@,
{
    let mut res = concat3(a, b, c);
    res.append(d);
    res.append(e);
    res
}

/// The texts one after another with a separator between them.
pub open spec fn joined(list: Seq<Seq<char>>, separator: Seq<char>) -> Seq<char>
    decreases list.len(),
{
    if list.len() == 0 {
        Seq::empty()
    } else if list.len() == 1 {
        list[0]
    } else {
        joined(list.drop_last(), separator) + separator + list.last()
    }
}

/// Joins the texts of a list with a separator between them.
pub fn join(list: &Vec<String>, separator: &str) -> (res: String)
    ensures
        res@ == joined(texts(list@), separator@),
{
    let mut res = String::new();
    let ghost all = texts(list@);
    let mut i: usize = 0;
    assert(all.take(0) =~= Seq::empty());
    assert(res@ =~= joined(all.take(0), separator@));
    while i < list.len()
        invariant
            i <= list.len(),
            all == texts(list@),
            res@ == joined(all.take(i as int), separator@),
        decreases list.len() - i,
    {
        let ghost before = res@;
        if i > 0 {
            res.append(separator);
        }
        res.append(list[i].as_str());
        proof {
            assert(all.take(i + 1).drop_last() =~= all.take(i as int));
            assert(all.take(i + 1).last() == list@[i as int]@);
            if i == 0 {
                assert(res@ =~= list@[0]@);
            }
        }
        i += 1;
    }
    assert(all.take(i as int) =~= all);
    res
}

/// Whether the list holds the text.
pub fn contains_text(list: &Vec<String>, text: &str) -> (res: bool)
    ensures
        res == texts(list@).contains(text@),
{
    let mut i: usize = 0;
    while i < list.len()
        invariant
            i <= list.len(),
            forall|j: int| 0 <= j < i ==> list@[j]@ != text@,
        decreases list.len() - i,
    {
        if text_eq(list[i].as_str(), text) {
            assert(texts(list@)[i as int] == text@);
            return true;
        }
        i += 1;
    }
    false
}

} // verus!
