//! Ordered sets and maps of strings.
use crate::text::{self, str_eq, str_less};
use vstd::prelude::*;

verus! {

/// Holds where the strings stand in strictly increasing order.
pub open spec fn strictly_sorted(keys: Seq<Seq<char>>) -> bool {
    forall|i: int, j: int|
        #![trigger keys[i], keys[j]]
        0 <= i < j < keys.len() ==> text::str_lt(keys[i], keys[j])
}

pub proof fn lemma_strictly_sorted_distinct(keys: Seq<Seq<char>>)
    requires
        strictly_sorted(keys),
    ensures
        keys.no_duplicates(),
{
    assert forall|i: int, j: int| 0 <= i < keys.len() && 0 <= j < keys.len() && i != j implies keys[i]
        != keys[j] by {
        text::lemma_str_lt_irreflexive(keys[i]);
        if i < j {
            assert(text::str_lt(keys[i], keys[j]));
        } else {
            assert(text::str_lt(keys[j], keys[i]));
        }
    }
}

/// Putting `key` between the smaller and the greater keys keeps the order.
pub proof fn lemma_sorted_insert(keys: Seq<Seq<char>>, at: int, key: Seq<char>)
    requires
        strictly_sorted(keys),
        0 <= at <= keys.len(),
        at > 0 ==> text::str_lt(keys[at - 1], key),
        at < keys.len() ==> text::str_lt(key, keys[at]),
    ensures
        strictly_sorted(keys.insert(at, key)),
{
    let out = keys.insert(at, key);
    assert forall|i: int, j: int| #![trigger out[i], out[j]] 0 <= i < j < out.len() implies text::str_lt(
        out[i],
        out[j],
    ) by {
        if i < at && j == at {
            if i < at - 1 {
                assert(text::str_lt(keys[i], keys[at - 1]));
                text::lemma_str_lt_transitive(keys[i], keys[at - 1], key);
            }
        } else if i == at && j > at {
            if j - 1 > at {
                assert(text::str_lt(keys[at], keys[j - 1]));
                text::lemma_str_lt_transitive(key, keys[at], keys[j - 1]);
            }
        } else if i < at && j > at {
            assert(text::str_lt(keys[i], keys[j - 1]));
        } else if i < at {
            assert(text::str_lt(keys[i], keys[j]));
        } else {
            assert(text::str_lt(keys[i - 1], keys[j - 1]));
        }
    }
}

proof fn lemma_before(keys: Seq<Seq<char>>, mid: int, key: Seq<char>)
    requires
        strictly_sorted(keys),
        0 <= mid < keys.len(),
        text::str_lt(keys[mid], key),
    ensures
        forall|j: int| 0 <= j <= mid ==> text::str_lt(#[trigger] keys[j], key),
{
    assert forall|j: int| 0 <= j <= mid implies text::str_lt(#[trigger] keys[j], key) by {
        if j < mid {
            text::lemma_str_lt_transitive(keys[j], keys[mid], key);
        }
    }
}

proof fn lemma_not_before(keys: Seq<Seq<char>>, mid: int, key: Seq<char>)
    requires
        strictly_sorted(keys),
        0 <= mid < keys.len(),
        !text::str_lt(keys[mid], key),
    ensures
        forall|j: int| mid <= j < keys.len() ==> !text::str_lt(#[trigger] keys[j], key),
{
    assert forall|j: int| mid <= j < keys.len() implies !text::str_lt(#[trigger] keys[j], key) by {
        if mid < j && text::str_lt(keys[j], key) {
            text::lemma_str_lt_transitive(keys[mid], keys[j], key);
        }
    }
}

/// Two strictly increasing sequences with the same elements are equal.
pub proof fn lemma_sorted_same_set(a: Seq<Seq<char>>, b: Seq<Seq<char>>)
    requires
        strictly_sorted(a),
        strictly_sorted(b),
        a.to_set() == b.to_set(),
    ensures
        a == b,
    decreases a.len(),
{
    if a.len() == 0 {
        if b.len() > 0 {
            assert(b.contains(b[0]));
            assert(b.to_set().contains(b[0]));
            assert(a.to_set().contains(b[0]));
        }
        assert(a =~= b);
    } else {
        let x = a.last();
        assert(a.contains(a[a.len() - 1]));
        assert(a.to_set().contains(x));
        assert(b.to_set().contains(x));
        assert(b.contains(x));
        let y = b.last();
        assert(b.contains(b[b.len() - 1]));
        assert(b.to_set().contains(y));
        assert(a.to_set().contains(y));
        assert(a.contains(y));
        let i = a.index_of(y);
        let j = b.index_of(x);
        if i < a.len() - 1 && j < b.len() - 1 {
            assert(text::str_lt(a[i], a[a.len() - 1]));
            assert(text::str_lt(b[j], b[b.len() - 1]));
            text::lemma_str_lt_transitive(x, y, x);
            text::lemma_str_lt_irreflexive(x);
        }
        assert(x == y);
        let a2 = a.drop_last();
        let b2 = b.drop_last();
        lemma_strictly_sorted_distinct(a);
        lemma_strictly_sorted_distinct(b);
        assert forall|k: Seq<char>| a2.contains(k) == b2.contains(k) by {
            if a2.contains(k) {
                let m = a2.index_of(k);
                assert(a[m] == k && a.contains(k));
                assert(a.to_set().contains(k));
                assert(b.to_set().contains(k));
                let n = b.index_of(k);
                assert(b[n] == k);
                assert(n < b.len() - 1);
                assert(b2[n] == k);
            }
            if b2.contains(k) {
                let m = b2.index_of(k);
                assert(b[m] == k && b.contains(k));
                assert(b.to_set().contains(k));
                assert(a.to_set().contains(k));
                let n = a.index_of(k);
                assert(a[n] == k);
                assert(n < a.len() - 1);
                assert(a2[n] == k);
            }
        }
        assert(a2.to_set() =~= b2.to_set());
        lemma_sorted_same_set(a2, b2);
        assert(a =~= a2.push(x));
        assert(b =~= b2.push(y));
    }
}

/// What the first `i + 1` keys contain beyond the first `i`.
pub proof fn lemma_take_contains(keys: Seq<Seq<char>>, i: int)
    requires
        0 <= i < keys.len(),
    ensures
        forall|k: Seq<char>| #[trigger]
            keys.take(i + 1).contains(k) <==> keys.take(i).contains(k) || k == keys[i],
{
    assert forall|k: Seq<char>| #[trigger]
        keys.take(i + 1).contains(k) <==> keys.take(i).contains(k) || k == keys[i] by {
        if keys.take(i).contains(k) {
            assert(keys.take(i + 1)[keys.take(i).index_of(k)] == k);
        }
        if k == keys[i] {
            assert(keys.take(i + 1)[i] == k);
        }
        if keys.take(i + 1).contains(k) && k != keys[i] {
            assert(keys.take(i)[keys.take(i + 1).index_of(k)] == k);
        }
    }
}

/// The keys of a sequence of entries.
pub open spec fn entry_keys<V>(entries: Seq<(String, V)>) -> Seq<Seq<char>> {
    entries.map_values(|e: (String, V)| e.0@)
}

/// The values of a sequence of entries.
pub open spec fn entry_values<V>(entries: Seq<(String, V)>) -> Seq<V> {
    entries.map_values(|e: (String, V)| e.1)
}

/// The map that sends the i-th key to the i-th value.
pub open spec fn zip_map<V>(keys: Seq<Seq<char>>, values: Seq<V>) -> Map<Seq<char>, V> {
    Map::new(|k: Seq<char>| keys.contains(k), |k: Seq<char>| values[keys.index_of(k)])
}

/// A map from strings to `V` that is walked in the order of its keys.
#[derive(Debug)]
pub struct StringMap<V> {
    entries: Vec<(String, V)>,
}

impl<V> View for StringMap<V> {
    type V = Map<Seq<char>, V>;

    closed spec fn view(&self) -> Map<Seq<char>, V> {
        zip_map(entry_keys(self.entries@), entry_values(self.entries@))
    }
}

impl<V> StringMap<V> {
    #[verifier::type_invariant]
    spec fn sorted(self) -> bool {
        strictly_sorted(entry_keys(self.entries@))
    }

    /// The keys in increasing order.
    pub closed spec fn keys(&self) -> Seq<Seq<char>> {
        entry_keys(self.entries@)
    }

    /// The values in the order of their keys.
    pub closed spec fn values(&self) -> Seq<V> {
        entry_values(self.entries@)
    }

    /// The empty map.
    pub fn new() -> (r: Self)
        ensures
            r@ == Map::<Seq<char>, V>::empty(),
            r.keys() == Seq::<Seq<char>>::empty(),
    {
        let r = StringMap { entries: Vec::new() };
        assert(r@ =~= Map::<Seq<char>, V>::empty());
        assert(r.keys() =~= Seq::<Seq<char>>::empty());
        r
    }

    /// The number of entries.
    pub fn len(&self) -> (r: usize)
        ensures
            r == self.keys().len(),
            r == self.values().len(),
            strictly_sorted(self.keys()),
            self@ == zip_map(self.keys(), self.values()),
    {
        proof {
            use_type_invariant(self);
        }
        self.entries.len()
    }

    /// The i-th key.
    pub fn key_at(&self, i: usize) -> (r: &String)
        requires
            i < self.keys().len(),
        ensures
            r@ == self.keys()[i as int],
            self@.dom().contains(r@),
    {
        let r = &self.entries[i].0;
        assert(self.keys()[i as int] == r@);
        r
    }

    /// The i-th value.
    pub fn value_at(&self, i: usize) -> (r: &V)
        requires
            i < self.keys().len(),
        ensures
            *r == self.values()[i as int],
            self@.dom().contains(self.keys()[i as int]),
            *r == self@[self.keys()[i as int]],
    {
        proof {
            use_type_invariant(self);
            lemma_strictly_sorted_distinct(self.keys());
        }
        let r = &self.entries[i].1;
        assert(self.values()[i as int] == *r);
        assert(self.keys()[self.keys().index_of(self.keys()[i as int])] == self.keys()[i as int]);
        r
    }

    /// The first position whose key is not before `key`.
    fn position(&self, key: &str) -> (r: usize)
        ensures
            r <= self.entries@.len(),
            forall|j: int|
                0 <= j < r ==> text::str_lt(#[trigger] entry_keys(self.entries@)[j], key@),
            r < self.entries@.len() ==> !text::str_lt(entry_keys(self.entries@)[r as int], key@),
    {
        proof {
            use_type_invariant(self);
        }
        let ghost keys = entry_keys(self.entries@);
        let mut lo: usize = 0;
        let mut hi: usize = self.entries.len();
        while lo < hi
            invariant
                lo <= hi <= self.entries@.len(),
                keys == entry_keys(self.entries@),
                strictly_sorted(keys),
                forall|j: int| 0 <= j < lo ==> text::str_lt(#[trigger] keys[j], key@),
                forall|j: int| hi <= j < keys.len() ==> !text::str_lt(#[trigger] keys[j], key@),
            decreases hi - lo,
        {
            let mid: usize = lo + (hi - lo) / 2;
            assert(keys[mid as int] == self.entries@[mid as int].0@);
            if str_less(self.entries[mid].0.as_str(), key) {
                proof {
                    lemma_before(keys, mid as int, key@);
                }
                lo = mid + 1;
            } else {
                proof {
                    lemma_not_before(keys, mid as int, key@);
                }
                hi = mid;
            }
        }
        lo
    }

    /// The position of `key`, where the map holds it.
    fn find(&self, key: &str) -> (r: Option<usize>)
        ensures
            match r {
                Some(i) => i < self.entries@.len() && self.entries@[i as int].0@ == key@
                    && self@.dom().contains(key@) && self@[key@] == self.entries@[i as int].1,
                None => !self@.dom().contains(key@),
            },
    {
        let i = self.position(key);
        let ghost keys = entry_keys(self.entries@);
        proof {
            use_type_invariant(self);
            lemma_strictly_sorted_distinct(keys);
        }
        if i < self.entries.len() && str_eq(self.entries[i].0.as_str(), key) {
            proof {
                assert(keys[i as int] == key@);
                assert(keys.contains(key@));
                assert(keys[keys.index_of(key@)] == key@);
            }
            Some(i)
        } else {
            proof {
                if keys.contains(key@) {
                    let j = keys.index_of(key@);
                    text::lemma_str_lt_irreflexive(key@);
                    if j < i {
                        assert(text::str_lt(keys[j], key@));
                    } else if j == i {
                        assert(keys[j] == self.entries@[i as int].0@);
                    } else {
                        assert(text::str_lt(keys[i as int], keys[j]));
                    }
                }
            }
            None
        }
    }

    /// The value of `key`.
    pub fn get(&self, key: &str) -> (r: Option<&V>)
        ensures
            match r {
                Some(v) => self@.dom().contains(key@) && *v == self@[key@],
                None => !self@.dom().contains(key@),
            },
    {
        match self.find(key) {
            Some(i) => Some(&self.entries[i].1),
            None => None,
        }
    }

    /// Tells whether the map holds `key`.
    pub fn contains_key(&self, key: &str) -> (r: bool)
        ensures
            r == self@.dom().contains(key@),
    {
        self.find(key).is_some()
    }

    /// Sets the value of `key`.
    pub fn insert(&mut self, key: String, value: V)
        ensures
            final(self)@ == old(self)@.insert(key@, value),
    {
        let i = self.position(key.as_str());
        let ghost keys = entry_keys(self.entries@);
        let ghost values = entry_values(self.entries@);
        let ghost before = self@;
        proof {
            use_type_invariant(&*self);
            lemma_strictly_sorted_distinct(keys);
        }
        let replaces = i < self.entries.len() && str_eq(self.entries[i].0.as_str(), key.as_str());
        let mut entries: Vec<(String, V)> = Vec::new();
        std::mem::swap(&mut entries, &mut self.entries);
        let ghost k = key@;
        if replaces {
            proof {
                assert(keys[i as int] == k);
            }
            entries.set(i, (key, value));
            proof {
                assert(entry_keys(entries@) =~= keys);
                assert(entry_values(entries@) =~= values.update(i as int, value));
            }
            self.entries = entries;
        } else {
            proof {
                text::lemma_str_lt_irreflexive(k);
                if i < keys.len() {
                    text::lemma_str_lt_total(keys[i as int], k);
                    assert(keys[i as int] == entries@[i as int].0@);
                }
                if i > 0 {
                    assert(text::str_lt(keys[i - 1], k));
                }
                lemma_sorted_insert(keys, i as int, k);
            }
            entries.insert(i, (key, value));
            proof {
                assert(entry_keys(entries@) =~= keys.insert(i as int, k));
                assert(entry_values(entries@) =~= values.insert(i as int, value));
            }
            self.entries = entries;
        }
        proof {
            lemma_strictly_sorted_distinct(self.keys());
            if replaces {
                lemma_zip_update(keys, values, i as int, value);
            } else {
                assert(!keys.contains(k)) by {
                    if keys.contains(k) {
                        let j = keys.index_of(k);
                        if j < i {
                            assert(text::str_lt(keys[j], k));
                        } else if j > i {
                            assert(text::str_lt(keys[i as int], keys[j]));
                        }
                    }
                }
                lemma_zip_insert(keys, values, i as int, k, value);
            }
        }
    }

    /// Takes `key` out of the map and returns its value.
    pub fn remove(&mut self, key: &str) -> (r: Option<V>)
        ensures
            final(self)@ == old(self)@.remove(key@),
            match r {
                Some(v) => old(self)@.dom().contains(key@) && v == old(self)@[key@],
                None => !old(self)@.dom().contains(key@),
            },
    {
        let at = self.find(key);
        let ghost keys = entry_keys(self.entries@);
        let ghost values = entry_values(self.entries@);
        proof {
            use_type_invariant(&*self);
            lemma_strictly_sorted_distinct(keys);
        }
        match at {
            None => {
                assert(self@ =~= self@.remove(key@));
                None
            },
            Some(i) => {
                let mut entries: Vec<(String, V)> = Vec::new();
                std::mem::swap(&mut entries, &mut self.entries);
                let (k, v) = entries.remove(i);
                proof {
                    assert(entry_keys(entries@) =~= keys.remove(i as int));
                    assert(entry_values(entries@) =~= values.remove(i as int));
                    assert(strictly_sorted(entry_keys(entries@)));
                    lemma_zip_remove(keys, values, i as int);
                    assert(keys[i as int] == key@);
                }
                self.entries = entries;
                Some(v)
            },
        }
    }
}

proof fn lemma_zip_update<V>(keys: Seq<Seq<char>>, values: Seq<V>, i: int, value: V)
    requires
        keys.no_duplicates(),
        keys.len() == values.len(),
        0 <= i < keys.len(),
    ensures
        zip_map(keys, values.update(i, value)) == zip_map(keys, values).insert(keys[i], value),
{
    assert(zip_map(keys, values.update(i, value)) =~= zip_map(keys, values).insert(keys[i], value))
        by {
        assert forall|k: Seq<char>| keys.contains(k) implies #[trigger] zip_map(
            keys,
            values.update(i, value),
        )[k] == zip_map(keys, values).insert(keys[i], value)[k] by {
            let j = keys.index_of(k);
            assert(keys[j] == k);
        }
    }
}

proof fn lemma_zip_insert<V>(keys: Seq<Seq<char>>, values: Seq<V>, i: int, key: Seq<char>, value: V)
    requires
        keys.no_duplicates(),
        keys.len() == values.len(),
        0 <= i <= keys.len(),
        !keys.contains(key),
    ensures
        zip_map(keys.insert(i, key), values.insert(i, value)) == zip_map(keys, values).insert(
            key,
            value,
        ),
{
    let ks = keys.insert(i, key);
    let vs = values.insert(i, value);
    assert forall|a: int, b: int| 0 <= a < ks.len() && 0 <= b < ks.len() && a != b implies ks[a]
        != ks[b] by {
        let a0 = if a < i { a } else { a - 1 };
        let b0 = if b < i { b } else { b - 1 };
        if a != i {
            assert(ks[a] == keys[a0]);
            assert(keys.contains(keys[a0]));
        }
        if b != i {
            assert(ks[b] == keys[b0]);
            assert(keys.contains(keys[b0]));
        }
    }
    let left = zip_map(ks, vs);
    let right = zip_map(keys, values).insert(key, value);
    assert forall|k: Seq<char>| ks.contains(k) == (keys.contains(k) || k == key) by {
        if keys.contains(k) {
            let j = keys.index_of(k);
            assert(ks[if j < i { j } else { j + 1 }] == k);
        }
        if k == key {
            assert(ks[i] == key);
        }
        if ks.contains(k) && k != key {
            let j = ks.index_of(k);
            assert(keys[if j < i { j } else { j - 1 }] == k);
        }
    }
    assert forall|k: Seq<char>| ks.contains(k) implies #[trigger] left[k] == right[k] by {
        let j = ks.index_of(k);
        assert(ks[j] == k);
        if k == key {
            assert(ks[i] == key);
            assert(j == i);
        } else {
            let j0 = if j < i { j } else { j - 1 };
            assert(keys[j0] == k);
            assert(keys.contains(k));
            assert(keys.index_of(k) == j0);
        }
    }
    assert(left =~= right);
}

proof fn lemma_zip_remove<V>(keys: Seq<Seq<char>>, values: Seq<V>, i: int)
    requires
        keys.no_duplicates(),
        keys.len() == values.len(),
        0 <= i < keys.len(),
    ensures
        zip_map(keys.remove(i), values.remove(i)) == zip_map(keys, values).remove(keys[i]),
{
    let ks = keys.remove(i);
    let vs = values.remove(i);
    let left = zip_map(ks, vs);
    let right = zip_map(keys, values).remove(keys[i]);
    assert forall|a: int, b: int| 0 <= a < ks.len() && 0 <= b < ks.len() && a != b implies ks[a]
        != ks[b] by {
        assert(ks[a] == keys[if a < i { a } else { a + 1 }]);
        assert(ks[b] == keys[if b < i { b } else { b + 1 }]);
    }
    assert forall|k: Seq<char>| ks.contains(k) == (keys.contains(k) && k != keys[i]) by {
        if keys.contains(k) && k != keys[i] {
            let j = keys.index_of(k);
            assert(ks[if j < i { j } else { j - 1 }] == k);
        }
        if ks.contains(k) {
            let j = ks.index_of(k);
            assert(keys[if j < i { j } else { j + 1 }] == k);
        }
    }
    assert forall|k: Seq<char>| ks.contains(k) implies #[trigger] left[k] == right[k] by {
        let j = ks.index_of(k);
        assert(ks[j] == k);
        let j0 = if j < i { j } else { j + 1 };
        assert(keys[j0] == k);
        assert(keys.index_of(k) == j0);
    }
    assert(left =~= right);
}

/// A set of strings that is walked in increasing order.
#[derive(Debug)]
pub struct StringSet {
    items: Vec<String>,
}

impl View for StringSet {
    type V = Set<Seq<char>>;

    closed spec fn view(&self) -> Set<Seq<char>> {
        text::views(self.items@).to_set()
    }
}

impl StringSet {
    #[verifier::type_invariant]
    spec fn sorted(self) -> bool {
        strictly_sorted(text::views(self.items@))
    }

    /// The elements in increasing order.
    pub closed spec fn elements(&self) -> Seq<Seq<char>> {
        text::views(self.items@)
    }

    /// The empty set.
    pub fn new() -> (r: Self)
        ensures
            r@ == Set::<Seq<char>>::empty(),
    {
        let r = StringSet { items: Vec::new() };
        assert(r@ =~= Set::<Seq<char>>::empty());
        r
    }

    /// The number of elements.
    pub fn len(&self) -> (r: usize)
        ensures
            r == self@.len(),
            self@.finite(),
            r == self.elements().len(),
            self@ == self.elements().to_set(),
            strictly_sorted(self.elements()),
    {
        proof {
            use_type_invariant(self);
            lemma_strictly_sorted_distinct(self.elements());
            self.elements().unique_seq_to_set();
        }
        self.items.len()
    }

    /// Tells whether the set has no element.
    pub fn is_empty(&self) -> (r: bool)
        ensures
            r == (self@ == Set::<Seq<char>>::empty()),
            r == (self.elements().len() == 0),
    {
        proof {
            assert(self.elements().len() == self.items@.len());
            if self.items@.len() == 0 {
                assert(self@ =~= Set::<Seq<char>>::empty());
            } else {
                assert(self.elements().contains(self.elements()[0]));
                assert(self@.contains(self.elements()[0]));
            }
        }
        self.items.len() == 0
    }

    /// The i-th element in increasing order.
    pub fn at(&self, i: usize) -> (r: &String)
        requires
            i < self.elements().len(),
        ensures
            r@ == self.elements()[i as int],
            self@.contains(r@),
    {
        let r = &self.items[i];
        assert(self.elements()[i as int] == r@);
        assert(self.elements().contains(r@));
        r
    }

    /// The elements in increasing order, as strings.
    pub fn to_vec(&self) -> (r: Vec<String>)
        ensures
            text::views(r@) == self.elements(),
            self@ == self.elements().to_set(),
            strictly_sorted(self.elements()),
    {
        proof {
            use_type_invariant(self);
        }
        let r = self.items.clone();
        assert(text::views(r@) =~= text::views(self.items@));
        r
    }

    /// The first position whose element is not before `key`.
    fn position(&self, key: &str) -> (r: usize)
        ensures
            r <= self.items@.len(),
            forall|j: int| 0 <= j < r ==> text::str_lt(
                #[trigger] text::views(self.items@)[j],
                key@,
            ),
            r < self.items@.len() ==> !text::str_lt(text::views(self.items@)[r as int], key@),
    {
        proof {
            use_type_invariant(self);
        }
        let ghost keys = text::views(self.items@);
        let mut lo: usize = 0;
        let mut hi: usize = self.items.len();
        while lo < hi
            invariant
                lo <= hi <= self.items@.len(),
                keys == text::views(self.items@),
                strictly_sorted(keys),
                forall|j: int| 0 <= j < lo ==> text::str_lt(#[trigger] keys[j], key@),
                forall|j: int| hi <= j < keys.len() ==> !text::str_lt(#[trigger] keys[j], key@),
            decreases hi - lo,
        {
            let mid: usize = lo + (hi - lo) / 2;
            assert(keys[mid as int] == self.items@[mid as int]@);
            if str_less(self.items[mid].as_str(), key) {
                proof {
                    lemma_before(keys, mid as int, key@);
                }
                lo = mid + 1;
            } else {
                proof {
                    lemma_not_before(keys, mid as int, key@);
                }
                hi = mid;
            }
        }
        lo
    }

    /// Tells whether `key` is an element.
    pub fn contains(&self, key: &str) -> (r: bool)
        ensures
            r == self@.contains(key@),
    {
        let i = self.position(key);
        let ghost keys = text::views(self.items@);
        proof {
            use_type_invariant(self);
        }
        let found = i < self.items.len() && str_eq(self.items[i].as_str(), key);
        proof {
            text::lemma_str_lt_irreflexive(key@);
            if found {
                assert(keys[i as int] == key@);
                assert(keys.contains(key@));
            } else if keys.contains(key@) {
                let j = keys.index_of(key@);
                if j < i {
                    assert(text::str_lt(keys[j], key@));
                } else if j == i {
                    assert(keys[j] == self.items@[i as int]@);
                } else {
                    assert(text::str_lt(keys[i as int], keys[j]));
                }
            }
        }
        found
    }

    /// Adds `key`, and tells whether it was missing.
    pub fn insert(&mut self, key: String) -> (r: bool)
        ensures
            final(self)@ == old(self)@.insert(key@),
            r == !old(self)@.contains(key@),
    {
        if self.contains(key.as_str()) {
            assert(self@ =~= self@.insert(key@));
            return false;
        }
        let i = self.position(key.as_str());
        let ghost keys = text::views(self.items@);
        let ghost k = key@;
        proof {
            use_type_invariant(&*self);
            assert(!keys.contains(k));
            if i < keys.len() {
                assert(keys.contains(keys[i as int]));
                text::lemma_str_lt_total(keys[i as int], k);
            }
            if i > 0 {
                assert(text::str_lt(keys[i - 1], k));
            }
            lemma_sorted_insert(keys, i as int, k);
        }
        let mut items: Vec<String> = Vec::new();
        std::mem::swap(&mut items, &mut self.items);
        items.insert(i, key);
        proof {
            assert(text::views(items@) =~= keys.insert(i as int, k));
        }
        self.items = items;
        proof {
            keys.insert_ensures(i as int, k);
            assert(self@ =~= old(self)@.insert(k)) by {
                let out = keys.insert(i as int, k);
                assert forall|x: Seq<char>| out.contains(x) == (keys.contains(x) || x == k) by {
                    if keys.contains(x) {
                        let j = keys.index_of(x);
                        assert(out[if j < i { j } else { j + 1 }] == x);
                    }
                    if x == k {
                        assert(out[i as int] == k);
                    }
                    if out.contains(x) && x != k {
                        let j = out.index_of(x);
                        assert(keys[if j < i { j } else { j - 1 }] == x);
                    }
                }
            }
        }
        true
    }

    /// The number of elements that `self` and `other` share.
    pub fn shared(&self, other: &StringSet) -> (r: usize)
        ensures
            r == self@.intersect(other@).len(),
            r <= self@.len(),
            self@.finite(),
    {
        proof {
            use_type_invariant(self);
        }
        let ghost all = self.elements();
        proof {
            lemma_strictly_sorted_distinct(all);
        }
        let mut i: usize = 0;
        let mut n: usize = 0;
        assert(all.take(0).to_set().intersect(other@) =~= Set::empty());
        while i < self.items.len()
            invariant
                n <= i <= self.items.len(),
                all == text::views(self.items@),
                all.no_duplicates(),
                all.take(i as int).to_set().intersect(other@).finite(),
                n == all.take(i as int).to_set().intersect(other@).len(),
            decreases self.items.len() - i,
        {
            let ghost seen = all.take(i as int).to_set();
            proof {
                let next = all.take(i as int + 1);
                assert(next =~= all.take(i as int).push(all[i as int]));
                assert(next.to_set() =~= seen.insert(all[i as int])) by {
                    assert forall|x: Seq<char>|
                        next.contains(x) == (all.take(i as int).contains(x) || x == all[i as int]) by {
                        if all.take(i as int).contains(x) {
                            assert(next[all.take(i as int).index_of(x)] == x);
                        }
                        if x == all[i as int] {
                            assert(next[i as int] == x);
                        }
                        if next.contains(x) && x != all[i as int] {
                            assert(all.take(i as int)[next.index_of(x)] == x);
                        }
                    }
                }
                assert(!seen.contains(all[i as int])) by {
                    if all.take(i as int).contains(all[i as int]) {
                        let j = all.take(i as int).index_of(all[i as int]);
                        assert(all[j] == all[i as int]);
                    }
                }
                if other@.contains(all[i as int]) {
                    assert(next.to_set().intersect(other@) =~= seen.intersect(other@).insert(
                        all[i as int],
                    ));
                } else {
                    assert(next.to_set().intersect(other@) =~= seen.intersect(other@));
                }
            }
            if other.contains(self.items[i].as_str()) {
                n += 1;
            }
            i += 1;
        }
        proof {
            assert(all.take(all.len() as int) =~= all);
            all.unique_seq_to_set();
        }
        n
    }
}

/// The size of the union of two finite sets.
pub proof fn lemma_union_size(a: Set<Seq<char>>, b: Set<Seq<char>>)
    requires
        a.finite(),
        b.finite(),
    ensures
        a.union(b).len() == a.len() + b.len() - a.intersect(b).len(),
        a.intersect(b).len() <= a.len(),
        a.intersect(b).len() <= b.len(),
{
    vstd::set_lib::lemma_set_intersect_union_lens(a, b);
    vstd::set_lib::lemma_len_intersect(a, b);
    vstd::set_lib::lemma_len_intersect(b, a);
    assert(a.intersect(b) =~= b.intersect(a));
}

} // verus!
