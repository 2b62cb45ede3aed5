//! A map from text to values, kept in text order.

use crate::text::{
    lemma_ordered_list, lemma_text_before_irreflexive, lemma_text_before_total,
    lemma_text_before_transitive, ordered_list_of, strictly_ordered, text_before, text_eq,
    text_less, texts,
};
use vstd::prelude::*;

verus! {

/// A map with text keys. Its entries stand in strictly increasing key order.
#[derive(PartialEq, Eq, Debug)]
pub struct TextMap<V> {
    entries: Vec<(String, V)>,
}

/// The keys of a list of entries.
pub open spec fn entry_keys<V>(entries: Seq<(String, V)>) -> Seq<Seq<char>> {
    Seq::new(entries.len(), |i: int| entries[i].0@)
}

impl<V> TextMap<V> {
    /// The keys in order.
    pub closed spec fn keys(self) -> Seq<Seq<char>> {
        entry_keys(self.entries@)
    }

    /// The values, each at the position of its key.
    pub closed spec fn values(self) -> Seq<V> {
        Seq::new(self.entries@.len(), |i: int| self.entries@[i].1)
    }

    /// The map as a mathematical one.
    pub open spec fn view(self) -> Map<Seq<char>, V> {
        Map::new(
            |key: Seq<char>| self.keys().contains(key),
            |key: Seq<char>| self.values()[self.keys().index_of(key)],
        )
    }

    /// One value for each key, and the keys in order.
    pub open spec fn ordered(self) -> bool {
        &&& strictly_ordered(self.keys())
        &&& self.values().len() == self.keys().len()
    }

    #[verifier::type_invariant]
    spec fn inv(self) -> bool {
        self.ordered()
    }

    /// The map without entries.
    pub fn new() -> (res: TextMap<V>)
        ensures
            res@ == Map::<Seq<char>, V>::empty(),
            res.keys().len() == 0,
            res.ordered(),
    {
        let res = TextMap { entries: Vec::new() };
        assert(res@ =~= Map::<Seq<char>, V>::empty());
        res
    }

    /// The number of entries.
    pub fn len(&self) -> (res: usize)
        ensures
            res == self.keys().len(),
            self.ordered(),
    {
        proof {
            use_type_invariant(self);
        }
        self.entries.len()
    }

    /// The key at a position.
    pub fn key_at(&self, index: usize) -> (res: &String)
        requires
            index < self.keys().len(),
        ensures
            res@ == self.keys()[index as int],
    {
        &self.entries[index].0
    }

    /// The value at a position.
    pub fn value_at(&self, index: usize) -> (res: &V)
        requires
            index < self.keys().len(),
        ensures
            *res == self.values()[index as int],
            self@.contains_key(self.keys()[index as int]),
            self@[self.keys()[index as int]] == *res,
    {
        proof {
            use_type_invariant(self);
            lemma_at(*self, index as int);
        }
        &self.entries[index].1
    }

    /// The first position whose key does not come before `key`.
    fn position(&self, key: &str) -> (res: usize)
        ensures
            res <= self.keys().len(),
            forall|i: int| 0 <= i < res ==> text_before(#[trigger] self.keys()[i], key@),
            forall|i: int|
                res <= i < self.keys().len() ==> !text_before(#[trigger] self.keys()[i], key@),
    {
        proof {
            use_type_invariant(self);
        }
        let mut low: usize = 0;
        let mut high: usize = self.entries.len();
        while low < high
            invariant
                low <= high <= self.keys().len(),
                self.keys().len() == self.entries@.len(),
                strictly_ordered(self.keys()),
                forall|i: int| 0 <= i < low ==> text_before(#[trigger] self.keys()[i], key@),
                forall|i: int|
                    high <= i < self.keys().len() ==> !text_before(
                        #[trigger] self.keys()[i],
                        key@,
                    ),
            decreases high - low,
        {
            let middle: usize = low + (high - low) / 2;
            assert(self.entries@[middle as int].0@ == self.keys()[middle as int]);
            if text_less(self.entries[middle].0.as_str(), key) {
                assert forall|i: int| 0 <= i < middle + 1 implies text_before(
                    #[trigger] self.keys()[i],
                    key@,
                ) by {
                    if i < middle {
                        lemma_text_before_transitive(
                            self.keys()[i],
                            self.keys()[middle as int],
                            key@,
                        );
                    }
                }
                low = middle + 1;
            } else {
                assert forall|i: int| middle <= i < self.keys().len() implies !text_before(
                    #[trigger] self.keys()[i],
                    key@,
                ) by {
                    if i > middle && text_before(self.keys()[i], key@) {
                        lemma_text_before_transitive(
                            self.keys()[middle as int],
                            self.keys()[i],
                            key@,
                        );
                    }
                }
                high = middle;
            }
        }
        low
    }

    /// The value of a key.
    pub fn get(&self, key: &str) -> (res: Option<&V>)
        ensures
            match res {
                Some(value) => self@.contains_key(key@) && *value == self@[key@],
                None => !self@.contains_key(key@),
            },
    {
        proof {
            use_type_invariant(self);
        }
        let index: usize = self.position(key);
        if index < self.entries.len() && text_eq(self.entries[index].0.as_str(), key) {
            proof {
                lemma_at(*self, index as int);
            }
            Some(&self.entries[index].1)
        } else {
            proof {
                if self.keys().contains(key@) {
                    let i = choose|i: int| 0 <= i < self.keys().len() && self.keys()[i] == key@;
                    lemma_text_before_irreflexive(key@);
                    assert(index < i);
                    assert(text_before(self.keys()[index as int], self.keys()[i]));
                }
            }
            None
        }
    }

    /// Whether the map has the key.
    pub fn contains_key(&self, key: &str) -> (res: bool)
        ensures
            res == self@.contains_key(key@),
    {
        self.get(key).is_some()
    }

    /// Gives the key this value, in place of the one it had. Tells whether the
    /// key is new.
    pub fn insert(&mut self, key: String, value: V) -> (res: bool)
        ensures
            res == !old(self)@.contains_key(key@),
            final(self)@ == old(self)@.insert(key@, value),
            final(self).ordered(),
    {
        proof {
            use_type_invariant(&*self);
        }
        let ghost before = *self;
        let index: usize = self.position(key.as_str());
        let mut entries: Vec<(String, V)> = Vec::new();
        std::mem::swap(&mut entries, &mut self.entries);
        let ghost keys = before.keys();
        let ghost name = key@;
        if index < entries.len() && text_eq(entries[index].0.as_str(), key.as_str()) {
            entries[index] = (key, value);
            let ghost after = TextMap { entries };
            proof {
                assert(after.keys() =~= before.keys());
                lemma_at(before, index as int);
                assert(after.ordered());
                assert forall|k: Seq<char>| keys.contains(k) implies after@[k] == before@.insert(
                    name,
                    value,
                )[k] by {
                    let i = keys.index_of(k);
                    lemma_at(before, i);
                    lemma_at(after, i);
                    if i == index {
                    } else {
                        assert(after.values()[i] == before.values()[i]);
                    }
                }
                assert(after@ =~= before@.insert(name, value));
            }
            self.entries = entries;
            false
        } else {
            proof {
                if keys.contains(name) {
                    let i = choose|i: int| 0 <= i < keys.len() && keys[i] == name;
                    lemma_text_before_irreflexive(name);
                    assert(index < i);
                    assert(text_before(keys[index as int], keys[i]));
                }
            }
            entries.insert(index, (key, value));
            let ghost after = TextMap { entries };
            proof {
                assert(after.keys() =~= keys.insert(index as int, name));
                assert(after.values() =~= before.values().insert(index as int, value));
                assert(strictly_ordered(after.keys())) by {
                    assert forall|i: int, j: int| 0 <= i < j < after.keys().len() implies
                        text_before(after.keys()[i], after.keys()[j]) by {
                        if j == index {
                            assert(after.keys()[i] == keys[i]);
                        } else if i == index {
                            assert(after.keys()[j] == keys[j - 1]);
                            lemma_text_before_total(keys[j - 1], name);
                            assert(keys.contains(keys[j - 1]));
                        }
                    }
                }
                assert forall|k: Seq<char>| after.keys().contains(k) <==> (keys.contains(k) || k
                    == name) by {
                    if keys.contains(k) {
                        let i = choose|i: int| 0 <= i < keys.len() && keys[i] == k;
                        if i < index {
                            assert(after.keys()[i] == k);
                        } else {
                            assert(after.keys()[i + 1] == k);
                        }
                    }
                    if k == name {
                        assert(after.keys()[index as int] == k);
                    }
                    if after.keys().contains(k) && k != name {
                        let i = choose|i: int|
                            0 <= i < after.keys().len() && after.keys()[i] == k;
                        if i < index {
                            assert(keys[i] == k);
                        } else {
                            assert(keys[i - 1] == k);
                        }
                    }
                }
                assert forall|k: Seq<char>| after.keys().contains(k) implies after@[k]
                    == before@.insert(name, value)[k] by {
                    let i = choose|i: int| 0 <= i < after.keys().len() && after.keys()[i] == k;
                    lemma_at(after, i);
                    if i == index {
                    } else if i < index {
                        assert(keys[i] == k);
                        lemma_at(before, i);
                        assert(after.values()[i] == before.values()[i]);
                    } else {
                        assert(keys[i - 1] == k);
                        lemma_at(before, i - 1);
                        assert(after.values()[i] == before.values()[i - 1]);
                    }
                }
                assert(after@ =~= before@.insert(name, value));
            }
            self.entries = entries;
            true
        }
    }
}

/// What stands at a position is what the map gives for the key there.
pub proof fn lemma_at<V>(map: TextMap<V>, index: int)
    requires
        map.ordered(),
        0 <= index < map.keys().len(),
    ensures
        map@.contains_key(map.keys()[index]),
        map@[map.keys()[index]] == map.values()[index],
        map.keys().index_of(map.keys()[index]) == index,
{
    let key = map.keys()[index];
    assert(map.keys().contains(key));
    let found = map.keys().index_of(key);
    lemma_text_before_irreflexive(key);
    if found < index {
        assert(text_before(map.keys()[found], map.keys()[index]));
    } else if index < found {
        assert(text_before(map.keys()[index], map.keys()[found]));
    }
}

/// The keys in order, as a list of strings.
pub fn ordered_keys<V>(map: &TextMap<V>) -> (res: Vec<String>)
    ensures
        texts(res@) == map.keys(),
        texts(res@) == ordered_list_of(map@.dom()),
        strictly_ordered(map.keys()),
{
    let count: usize = map.len();
    let mut res: Vec<String> = Vec::new();
    let mut i: usize = 0;
    while i < count
        invariant
            i <= count,
            count == map.keys().len(),
            texts(res@) == map.keys().take(i as int),
        decreases count - i,
    {
        let ghost before = res@;
        res.push(map.key_at(i).clone());
        proof {
            assert(texts(res@) =~= texts(before).push(map.keys()[i as int]));
            assert(map.keys().take(i + 1) =~= map.keys().take(i as int).push(map.keys()[i as int]));
        }
        i += 1;
    }
    proof {
        assert(map.keys().take(i as int) =~= map.keys());
        assert forall|x: Seq<char>| map.keys().contains(x) <==> map@.dom().contains(x) by {}
        lemma_ordered_list(map.keys(), map@.dom());
    }
    res
}

/// The texts of a list, each once, in order.
pub fn sorted_unique(list: &Vec<String>) -> (res: Vec<String>)
    ensures
        texts(res@) == ordered_list_of(texts(list@).to_set()),
        strictly_ordered(texts(res@)),
        forall|x: Seq<char>| #[trigger] texts(res@).contains(x) <==> texts(list@).contains(x),
{
    let mut all: TextMap<bool> = TextMap::new();
    let ghost names = texts(list@);
    let mut i: usize = 0;
    while i < list.len()
        invariant
            i <= list@.len(),
            names == texts(list@),
            forall|x: Seq<char>| #[trigger]
                all@.contains_key(x) <==> names.take(i as int).contains(x),
        decreases list@.len() - i,
    {
        let ghost before = all@;
        all.insert(list[i].clone(), true);
        proof {
            let (a, b) = (names.take(i as int), names.take(i + 1));
            assert(b =~= a.push(names[i as int]));
            assert forall|x: Seq<char>| #[trigger] all@.contains_key(x) <==> b.contains(x) by {
                assert(before.contains_key(x) <==> a.contains(x));
                if a.contains(x) {
                    assert(b[a.index_of(x)] == x);
                }
                if x == names[i as int] {
                    assert(b[i as int] == x);
                }
            }
        }
        i += 1;
    }
    assert(names.take(i as int) =~= names);
    assert(all@.dom() =~= names.to_set());
    let res = ordered_keys(&all);
    assert forall|x: Seq<char>| #[trigger] texts(res@).contains(x) <==> names.contains(x) by {
        assert(all.keys().contains(x) <==> all@.contains_key(x));
    }
    res
}

/// The keys that occur in either of two maps, in order.
pub fn union_keys(a: &TextMap<String>, b: &TextMap<String>) -> (res: Vec<String>)
    ensures
        texts(res@) == ordered_list_of(a@.dom().union(b@.dom())),
        strictly_ordered(texts(res@)),
        forall|x: Seq<char>| texts(res@).contains(x) <==> (a@.contains_key(x) || b@.contains_key(x)),
{
    let mut all: TextMap<bool> = TextMap::new();
    add_keys(a, &mut all);
    add_keys(b, &mut all);
    proof {
        assert(all@.dom() =~= a@.dom().union(b@.dom()));
    }
    let res = ordered_keys(&all);
    assert forall|x: Seq<char>| texts(res@).contains(x) <==> (a@.contains_key(x)
        || b@.contains_key(x)) by {
        assert(all.keys().contains(x) <==> all@.contains_key(x));
    }
    res
}

fn add_keys(from: &TextMap<String>, to: &mut TextMap<bool>)
    ensures
        final(to)@.dom() == old(to)@.dom().union(from@.dom()),
{
    let count: usize = from.len();
    let ghost start = to@.dom();
    let mut i: usize = 0;
    while i < count
        invariant
            i <= count,
            count == from.keys().len(),
            forall|x: Seq<char>| #[trigger] to@.contains_key(x) <==> (start.contains(x)
                || from.keys().take(i as int).contains(x)),
        decreases count - i,
    {
        let key = from.key_at(i).clone();
        let ghost name = key@;
        let ghost before = to@;
        to.insert(key, true);
        proof {
            let (x, y) = (from.keys().take(i as int), from.keys().take(i + 1));
            assert(y =~= x.push(name));
            assert forall|t: Seq<char>| #[trigger] to@.contains_key(t) <==> (start.contains(t)
                || y.contains(t)) by {
                assert(before.contains_key(t) <==> (start.contains(t) || x.contains(t)));
                if x.contains(t) {
                    let j = choose|j: int| 0 <= j < x.len() && x[j] == t;
                    assert(y[j] == t);
                }
                if t == name {
                    assert(y[i as int] == t);
                }
            }
        }
        i += 1;
    }
    proof {
        assert(from.keys().take(i as int) =~= from.keys());
        assert(to@.dom() =~= start.union(from@.dom()));
    }
}

/// A copy of a map of texts.
pub fn clone_texts(map: &TextMap<String>) -> (res: TextMap<String>)
    ensures
        res@ == map@,
        res.keys() == map.keys(),
        res.values() == map.values(),
        res.ordered(),
{
    proof {
        use_type_invariant(map);
    }
    let mut entries: Vec<(String, String)> = Vec::new();
    let mut i: usize = 0;
    while i < map.entries.len()
        invariant
            i <= map.entries.len(),
            entries@ == map.entries@.take(i as int),
        decreases map.entries.len() - i,
    {
        let entry = &map.entries[i];
        entries.push((entry.0.clone(), entry.1.clone()));
        assert(entries@ =~= map.entries@.take(i + 1));
        i += 1;
    }
    assert(entries@ =~= map.entries@);
    let ghost copy = TextMap { entries };
    assert(copy.keys() == map.keys());
    assert(copy.values() == map.values());
    TextMap { entries }
}

} // verus!
