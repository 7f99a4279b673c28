//! Maps from byte strings, kept in key order.
use crate::index::key;
use crate::index::key::{order_keys, KeyOrder};
use vstd::prelude::*;

verus! {

/// A map from byte strings that can be walked in key order.
pub struct KeyMap<V> {
    keys: Vec<Vec<u8>>,
    values: Vec<V>,
}

/// Whether keys rise strictly.
pub open spec fn keys_rise(keys: Seq<Seq<u8>>) -> bool {
    forall|i: int, j: int|
        0 <= i < j < keys.len() ==> key::key_lt(#[trigger] keys[i], #[trigger] keys[j])
}

/// The map that keys and values in the same places stand for.
pub open spec fn paired<V>(keys: Seq<Seq<u8>>, values: Seq<V>) -> Map<Seq<u8>, V> {
    Map::new(|k: Seq<u8>| keys.contains(k), |k: Seq<u8>| values[keys.index_of(k)])
}

pub open spec fn byte_views(keys: Seq<Vec<u8>>) -> Seq<Seq<u8>> {
    Seq::new(keys.len(), |i: int| keys[i]@)
}

pub proof fn lemma_rise_distinct(keys: Seq<Seq<u8>>)
    requires
        keys_rise(keys),
    ensures
        keys.no_duplicates(),
{
    assert forall|i: int, j: int| 0 <= i < keys.len() && 0 <= j < keys.len() && i != j implies keys[i]
        != keys[j] by {
        if i < j {
            assert(key::key_lt(keys[i], keys[j]));
        } else {
            assert(key::key_lt(keys[j], keys[i]));
        }
        key::lemma_key_irreflexive(keys[i]);
    }
}

/// The place of a key in rising keys is the only one.
pub proof fn lemma_index_of(keys: Seq<Seq<u8>>, at: int)
    requires
        keys_rise(keys),
        0 <= at < keys.len(),
    ensures
        keys.index_of(keys[at]) == at,
        keys.contains(keys[at]),
{
    lemma_rise_distinct(keys);
    let found = keys.index_of(keys[at]);
    assert(keys[found] == keys[at]);
}

/// A key that is before one and after the one before is not there.
proof fn lemma_not_between(keys: Seq<Seq<u8>>, at: int, k: Seq<u8>)
    requires
        keys_rise(keys),
        0 <= at <= keys.len(),
        at > 0 ==> key::key_lt(keys[at - 1], k),
        at < keys.len() ==> key::key_lt(k, keys[at]),
    ensures
        !keys.contains(k),
        forall|i: int| 0 <= i < at ==> key::key_lt(#[trigger] keys[i], k),
        forall|i: int| at <= i < keys.len() ==> key::key_lt(k, #[trigger] keys[i]),
{
    assert forall|i: int| 0 <= i < at implies key::key_lt(#[trigger] keys[i], k) by {
        if i < at - 1 {
            key::lemma_key_transitive(keys[i], keys[at - 1], k);
        }
    }
    assert forall|i: int| at <= i < keys.len() implies key::key_lt(k, #[trigger] keys[i]) by {
        if i > at {
            key::lemma_key_transitive(k, keys[at], keys[i]);
        }
    }
    if keys.contains(k) {
        let i = choose|i: int| 0 <= i < keys.len() && keys[i] == k;
        key::lemma_key_irreflexive(k);
    }
}

/// Inserting a pair between others adds it to the map.
proof fn lemma_insert<V>(keys: Seq<Seq<u8>>, values: Seq<V>, at: int, k: Seq<u8>, value: V)
    requires
        keys_rise(keys),
        keys.len() == values.len(),
        0 <= at <= keys.len(),
        at > 0 ==> key::key_lt(keys[at - 1], k),
        at < keys.len() ==> key::key_lt(k, keys[at]),
    ensures
        keys_rise(keys.insert(at, k)),
        paired(keys.insert(at, k), values.insert(at, value)) == paired(keys, values).insert(
            k,
            value,
        ),
{
    lemma_not_between(keys, at, k);
    let more = keys.insert(at, k);
    let more_values = values.insert(at, value);
    assert forall|i: int, j: int| 0 <= i < j < more.len() implies key::key_lt(
        #[trigger] more[i],
        #[trigger] more[j],
    ) by {
        let old_i = if i < at {
            i
        } else {
            i - 1
        };
        let old_j = if j < at {
            j
        } else {
            j - 1
        };
        if i != at {
            assert(more[i] == keys[old_i]);
        }
        if j != at {
            assert(more[j] == keys[old_j]);
        }
    }
    let before = paired(keys, values);
    let after = paired(more, more_values);
    assert forall|other: Seq<u8>| #[trigger]
        after.contains_key(other) == before.insert(k, value).contains_key(other) by {
        if more.contains(other) {
            let i = choose|i: int| 0 <= i < more.len() && more[i] == other;
            if i < at {
                assert(keys[i] == other);
            } else if i > at {
                assert(keys[i - 1] == other);
            }
        }
        if keys.contains(other) {
            let i = choose|i: int| 0 <= i < keys.len() && keys[i] == other;
            if i < at {
                assert(more[i] == other);
            } else {
                assert(more[i + 1] == other);
            }
        }
        if other == k {
            assert(more[at] == k);
        }
    }
    assert forall|other: Seq<u8>| #[trigger] after.contains_key(other) implies after[other]
        == before.insert(k, value)[other] by {
        let i = choose|i: int| 0 <= i < more.len() && more[i] == other;
        lemma_index_of(more, i);
        if i < at {
            lemma_index_of(keys, i);
        } else if i > at {
            lemma_index_of(keys, i - 1);
            assert(keys[i - 1] == other);
        }
    }
    assert(after =~= before.insert(k, value));
}

/// Removing a pair takes it from the map.
proof fn lemma_remove<V>(keys: Seq<Seq<u8>>, values: Seq<V>, at: int)
    requires
        keys_rise(keys),
        keys.len() == values.len(),
        0 <= at < keys.len(),
    ensures
        keys_rise(keys.remove(at)),
        paired(keys.remove(at), values.remove(at)) == paired(keys, values).remove(keys[at]),
{
    let less = keys.remove(at);
    let less_values = values.remove(at);
    lemma_rise_distinct(keys);
    assert forall|i: int, j: int| 0 <= i < j < less.len() implies key::key_lt(
        #[trigger] less[i],
        #[trigger] less[j],
    ) by {
        let from_i = if i < at {
            i
        } else {
            i + 1
        };
        let from_j = if j < at {
            j
        } else {
            j + 1
        };
        assert(less[i] == keys[from_i] && less[j] == keys[from_j]);
    }
    let before = paired(keys, values);
    let after = paired(less, less_values);
    assert forall|other: Seq<u8>| #[trigger]
        after.contains_key(other) == before.remove(keys[at]).contains_key(other) by {
        if less.contains(other) {
            let i = choose|i: int| 0 <= i < less.len() && less[i] == other;
            if i < at {
                assert(keys[i] == other);
            } else {
                assert(keys[i + 1] == other);
            }
        }
        if keys.contains(other) && other != keys[at] {
            let i = choose|i: int| 0 <= i < keys.len() && keys[i] == other;
            if i < at {
                assert(less[i] == other);
            } else {
                assert(less[i - 1] == other);
            }
        }
    }
    assert forall|other: Seq<u8>| #[trigger] after.contains_key(other) implies after[other]
        == before.remove(keys[at])[other] by {
        let i = choose|i: int| 0 <= i < less.len() && less[i] == other;
        lemma_index_of(less, i);
        if i < at {
            lemma_index_of(keys, i);
        } else {
            lemma_index_of(keys, i + 1);
        }
    }
    assert(after =~= before.remove(keys[at]));
}

/// Where a key is, or would be.
pub struct Place {
    pub at: usize,
    pub present: bool,
}

impl<V> KeyMap<V> {
    /// The keys in order.
    pub closed spec fn order(&self) -> Seq<Seq<u8>> {
        byte_views(self.keys@)
    }

    /// The values in the order of their keys.
    pub closed spec fn items(&self) -> Seq<V> {
        self.values@
    }

    /// Whether every key has a value and the keys rise.
    pub open spec fn wf(&self) -> bool {
        &&& self.order().len() == self.items().len()
        &&& keys_rise(self.order())
    }
}

impl<V> View for KeyMap<V> {
    type V = Map<Seq<u8>, V>;

    open spec fn view(&self) -> Map<Seq<u8>, V> {
        paired(self.order(), self.items())
    }
}

impl<V> KeyMap<V> {
    /// A map with nothing in it.
    pub fn new() -> (map: KeyMap<V>)
        ensures
            map.wf(),
            map@ == Map::<Seq<u8>, V>::empty(),
            map.order() == Seq::<Seq<u8>>::empty(),
    {
        let map = KeyMap { keys: Vec::new(), values: Vec::new() };
        assert(map.order() =~= Seq::empty());
        assert(map@ =~= Map::<Seq<u8>, V>::empty());
        map
    }

    /// The number of keys.
    pub fn len(&self) -> (count: usize)
        requires
            self.wf(),
        ensures
            count == self.order().len(),
            count == self.items().len(),
    {
        self.keys.len()
    }

    /// The key at a place.
    pub fn key_at(&self, at: usize) -> (found: &Vec<u8>)
        requires
            self.wf(),
            at < self.order().len(),
        ensures
            found@ == self.order()[at as int],
            self@.contains_key(found@),
    {
        proof {
            lemma_index_of(self.order(), at as int);
        }
        &self.keys[at]
    }

    /// The value at a place.
    pub fn value_at(&self, at: usize) -> (found: &V)
        requires
            self.wf(),
            at < self.order().len(),
        ensures
            *found == self.items()[at as int],
            *found == self@[self.order()[at as int]],
    {
        proof {
            lemma_index_of(self.order(), at as int);
        }
        &self.values[at]
    }

    /// The place of a key: where it is, or the place of the first key after it.
    pub fn place(&self, wanted: &[u8]) -> (place: Place)
        requires
            self.wf(),
        ensures
            place.at <= self.order().len(),
            place.present == self@.contains_key(wanted@),
            place.present ==> place.at < self.order().len() && self.order()[place.at as int]
                == wanted@ && self@[wanted@] == self.items()[place.at as int],
            forall|i: int|
                0 <= i < place.at ==> key::key_lt(#[trigger] self.order()[i], wanted@),
            forall|i: int|
                place.at <= i < self.order().len() ==> key::key_le(
                    wanted@,
                    #[trigger] self.order()[i],
                ),
    {
        let ghost keys = self.order();
        let mut low: usize = 0;
        let mut high: usize = self.keys.len();
        while low < high
            invariant
                0 <= low <= high <= keys.len(),
                self.wf(),
                keys == self.order(),
                low > 0 ==> key::key_lt(keys[low - 1], wanted@),
                high < keys.len() ==> key::key_lt(wanted@, keys[high as int]),
            decreases high - low,
        {
            let middle: usize = low + (high - low) / 2;
            assert(keys[middle as int] == self.keys@[middle as int]@);
            match order_keys(self.keys[middle].as_slice(), wanted) {
                KeyOrder::Before => {
                    low = middle + 1;
                },
                KeyOrder::Same => {
                    proof {
                        lemma_index_of(keys, middle as int);
                    }
                    return Place { at: middle, present: true };
                },
                KeyOrder::After => {
                    high = middle;
                },
            }
        }
        proof {
            lemma_not_between(keys, low as int, wanted@);
        }
        Place { at: low, present: false }
    }

    /// The value of a key.
    pub fn get(&self, wanted: &[u8]) -> (value: Option<&V>)
        requires
            self.wf(),
        ensures
            match value {
                Some(value) => self@.contains_key(wanted@) && *value == self@[wanted@],
                None => !self@.contains_key(wanted@),
            },
    {
        let place = self.place(wanted);
        if place.present {
            Some(&self.values[place.at])
        } else {
            None
        }
    }

    /// Whether a key is there.
    pub fn contains(&self, wanted: &[u8]) -> (present: bool)
        requires
            self.wf(),
        ensures
            present == self@.contains_key(wanted@),
    {
        self.place(wanted).present
    }

    /// Gives a key a value, in place of the one that it had.
    pub fn insert(&mut self, new_key: Vec<u8>, value: V)
        requires
            old(self).wf(),
        ensures
            final(self).wf(),
            final(self)@ == old(self)@.insert(new_key@, value),
    {
        let place = self.place(new_key.as_slice());
        let ghost keys = self.order();
        let ghost values = self.items();
        let ghost k = new_key@;
        if place.present {
            self.values.set(place.at, value);
            proof {
                assert(self.order() =~= keys);
                assert(self@ =~= paired(keys, values).insert(k, value)) by {
                    assert forall|other: Seq<u8>| #[trigger]
                        self@.contains_key(other) implies self@[other] == paired(
                        keys,
                        values,
                    ).insert(k, value)[other] by {
                        let i = keys.index_of(other);
                        assert(keys[i] == other);
                        lemma_index_of(keys, i);
                        lemma_index_of(keys, place.at as int);
                    }
                }
            }
        } else {
            proof {
                if place.at > 0 {
                    assert(key::key_lt(keys[place.at - 1], k));
                }
                if place.at < keys.len() {
                    lemma_index_of(keys, place.at as int);
                    assert(key::key_le(k, keys[place.at as int]));
                }
                lemma_insert(keys, values, place.at as int, k, value);
            }
            self.keys.insert(place.at, new_key);
            self.values.insert(place.at, value);
            assert(self.order() =~= keys.insert(place.at as int, k));
            assert(self.items() =~= values.insert(place.at as int, value));
        }
    }

    /// Adds a key behind all others.
    pub fn push(&mut self, new_key: Vec<u8>, value: V)
        requires
            old(self).wf(),
            old(self).order().len() > 0 ==> key::key_lt(old(self).order().last(), new_key@),
        ensures
            final(self).wf(),
            final(self)@ == old(self)@.insert(new_key@, value),
            final(self).order() == old(self).order().push(new_key@),
            final(self).items() == old(self).items().push(value),
    {
        let ghost keys = self.order();
        let ghost values = self.items();
        let ghost k = new_key@;
        proof {
            lemma_insert(keys, values, keys.len() as int, k, value);
        }
        self.keys.push(new_key);
        self.values.push(value);
        assert(self.order() =~= keys.push(k));
        assert(self.items() =~= values.push(value));
        assert(keys.push(k) =~= keys.insert(keys.len() as int, k));
        assert(values.push(value) =~= values.insert(values.len() as int, value));
    }

    /// Takes a key and its value out.
    pub fn remove(&mut self, wanted: &[u8]) -> (value: Option<V>)
        requires
            old(self).wf(),
        ensures
            final(self).wf(),
            final(self)@ == old(self)@.remove(wanted@),
            match value {
                Some(value) => old(self)@.contains_key(wanted@) && value == old(self)@[wanted@],
                None => !old(self)@.contains_key(wanted@),
            },
    {
        let place = self.place(wanted);
        let ghost keys = self.order();
        let ghost values = self.items();
        if place.present {
            proof {
                lemma_remove(keys, values, place.at as int);
            }
            let _ = self.keys.remove(place.at);
            let value = self.values.remove(place.at);
            assert(self.order() =~= keys.remove(place.at as int));
            assert(self.items() =~= values.remove(place.at as int));
            Some(value)
        } else {
            assert(self@ =~= old(self)@.remove(wanted@));
            None
        }
    }

    /// Takes the last key and its value out.
    pub fn pop(&mut self) -> (pair: Option<(Vec<u8>, V)>)
        requires
            old(self).wf(),
        ensures
            final(self).wf(),
            match pair {
                Some((key, value)) => {
                    &&& old(self).order().len() > 0
                    &&& key@ == old(self).order().last()
                    &&& value == old(self).items().last()
                    &&& final(self).order() == old(self).order().drop_last()
                    &&& final(self).items() == old(self).items().drop_last()
                },
                None => old(self).order().len() == 0 && final(self).order() == old(self).order()
                    && final(self).items() == old(self).items(),
            },
    {
        let ghost keys = self.order();
        let ghost values = self.items();
        match self.keys.pop() {
            None => None,
            Some(key) => match self.values.pop() {
                None => None,
                Some(value) => {
                    proof {
                        let less = keys.drop_last();
                        assert(self.order() =~= less);
                        assert(self.items() =~= values.drop_last());
                        assert(key@ == keys[keys.len() - 1]);
                        assert forall|i: int, j: int| 0 <= i < j < less.len() implies key::key_lt(
                            #[trigger] less[i],
                            #[trigger] less[j],
                        ) by {
                            assert(less[i] == keys[i] && less[j] == keys[j]);
                        }
                    }
                    Some((key, value))
                },
            },
        }
    }
}

/// Every key of a map has a place in its order.
pub proof fn lemma_placed<V>(map: &KeyMap<V>, k: Seq<u8>) -> (at: int)
    requires
        map.wf(),
        map@.contains_key(k),
    ensures
        0 <= at < map.order().len(),
        map.order()[at] == k,
        map.items()[at] == map@[k],
{
    map.order().index_of(k)
}

/// Every place of a map has a key.
pub proof fn lemma_at<V>(map: &KeyMap<V>, at: int)
    requires
        map.wf(),
        0 <= at < map.order().len(),
    ensures
        map@.contains_key(map.order()[at]),
        map@[map.order()[at]] == map.items()[at],
{
    lemma_index_of(map.order(), at);
}

/// Whether keys are those of a map, in order.
pub open spec fn is_order<V>(map: Map<Seq<u8>, V>, keys: Seq<Seq<u8>>) -> bool {
    &&& keys_rise(keys)
    &&& forall|k: Seq<u8>| #[trigger] map.contains_key(k) <==> keys.contains(k)
}

/// The keys of a map in order.
pub open spec fn ordered_keys<V>(map: Map<Seq<u8>, V>) -> Seq<Seq<u8>> {
    choose|keys: Seq<Seq<u8>>| is_order(map, keys)
}

/// There is one way to put the keys of a map in order.
pub proof fn lemma_order_unique<V>(map: Map<Seq<u8>, V>, keys: Seq<Seq<u8>>)
    requires
        is_order(map, keys),
    ensures
        ordered_keys(map) == keys,
{
    let other = ordered_keys(map);
    assert(is_order(map, other));
    assert forall|k: Seq<u8>| keys.contains(k) <==> #[trigger] other.contains(k) by {
        assert(map.contains_key(k) <==> keys.contains(k));
        assert(map.contains_key(k) <==> other.contains(k));
    }
    lemma_same_rising(other, keys);
}

/// Rising keys are determined by which keys they are.
proof fn lemma_same_rising(first: Seq<Seq<u8>>, second: Seq<Seq<u8>>)
    requires
        keys_rise(first),
        keys_rise(second),
        forall|k: Seq<u8>| second.contains(k) <==> #[trigger] first.contains(k),
    ensures
        first == second,
    decreases first.len(),
{
    if first.len() == 0 {
        if second.len() > 0 {
            assert(second.contains(second[0]));
            assert(first.contains(second[0]));
        }
        assert(first =~= second);
    } else {
        assert(first.contains(first[0]));
        assert(second.len() > 0);
        let a = first.last();
        let b = second.last();
        assert(first[first.len() - 1] == a && second[second.len() - 1] == b);
        assert(first.contains(a) && second.contains(b));
        assert(second.contains(a) && first.contains(b));
        assert(a == b) by {
            let i = choose|i: int| 0 <= i < second.len() && second[i] == a;
            let j = choose|j: int| 0 <= j < first.len() && first[j] == b;
            if i < second.len() - 1 && j < first.len() - 1 {
                assert(key::key_lt(second[i], second[second.len() - 1]));
                assert(key::key_lt(first[j], first[first.len() - 1]));
                key::lemma_key_asymmetric(a, b);
            }
        }
        let head = first.drop_last();
        let other = second.drop_last();
        lemma_rise_distinct(first);
        lemma_rise_distinct(second);
        assert forall|k: Seq<u8>| other.contains(k) <==> #[trigger] head.contains(k) by {
            if head.contains(k) {
                let i = choose|i: int| 0 <= i < head.len() && head[i] == k;
                assert(first[i] == k);
                assert(first.contains(k));
                let j = choose|j: int| 0 <= j < second.len() && second[j] == k;
                assert(k != a);
                assert(other[j] == k);
            }
            if other.contains(k) {
                let i = choose|i: int| 0 <= i < other.len() && other[i] == k;
                assert(second[i] == k);
                assert(second.contains(k));
                assert(first.contains(k));
                let j = choose|j: int| 0 <= j < first.len() && first[j] == k;
                assert(k != b);
                assert(head[j] == k);
            }
        }
        lemma_same_rising(head, other);
        assert(first =~= head.push(a));
        assert(second =~= other.push(b));
    }
}

/// The order of a map's keys is the order that the map keeps.
pub proof fn lemma_order<V>(map: &KeyMap<V>)
    requires
        map.wf(),
    ensures
        is_order(map@, map.order()),
        ordered_keys(map@) == map.order(),
{
    lemma_order_unique(map@, map.order());
}

} // verus!
