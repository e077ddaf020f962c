//! A map from strings to values, kept as a list of entries with distinct keys.

use vstd::prelude::*;
use vstd::string::*;

verus! {

/// A finite map keyed by strings. Entries keep the order in which their keys
/// were first inserted.
#[derive(Debug)]
pub struct StrMap<V> {
    keys: Vec<String>,
    values: Vec<V>,
}

/// The texts of a list of strings.
pub open spec fn texts(strings: Seq<String>) -> Seq<Seq<char>> {
    Seq::new(strings.len(), |i: int| strings[i]@)
}

/// The views of a list of values.
pub open spec fn views<V: View>(values: Seq<V>) -> Seq<V::V> {
    Seq::new(values.len(), |i: int| values[i]@)
}

/// The map that sends the key at each position of `keys` to the value at the
/// same position of `values`.
pub open spec fn paired<T>(keys: Seq<Seq<char>>, values: Seq<T>) -> Map<Seq<char>, T> {
    Map::new(|k: Seq<char>| keys.contains(k), |k: Seq<char>| values[keys.index_of(k)])
}

/// With distinct keys, the key at `i` is sent to the value at `i`.
pub proof fn lemma_paired_at<T>(keys: Seq<Seq<char>>, values: Seq<T>, i: int)
    requires
        keys.no_duplicates(),
        0 <= i < keys.len(),
    ensures
        keys.contains(keys[i]),
        keys.index_of(keys[i]) == i,
        paired(keys, values).contains_key(keys[i]),
        paired(keys, values)[keys[i]] == values[i],
{
    let j = keys.index_of(keys[i]);
    assert(0 <= j < keys.len() && keys[j] == keys[i]);
}

/// Replacing the value at `at` stores it under the key at `at`.
pub proof fn lemma_paired_update<T>(keys: Seq<Seq<char>>, values: Seq<T>, at: int, value: T)
    requires
        keys.no_duplicates(),
        keys.len() == values.len(),
        0 <= at < keys.len(),
    ensures
        paired(keys, values.update(at, value)) == paired(keys, values).insert(keys[at], value),
{
    let left = paired(keys, values.update(at, value));
    let right = paired(keys, values).insert(keys[at], value);
    assert forall|k: Seq<char>| left.contains_key(k) implies left[k] == right[k] by {
        let i = keys.index_of(k);
        assert(0 <= i < keys.len() && keys[i] == k);
        lemma_paired_at(keys, values, i);
    }
    assert(left =~= right);
}

/// Adding a new key with its value at the end stores the value under the key.
pub proof fn lemma_paired_push<T>(keys: Seq<Seq<char>>, values: Seq<T>, key: Seq<char>, value: T)
    requires
        keys.no_duplicates(),
        keys.len() == values.len(),
        !keys.contains(key),
    ensures
        keys.push(key).no_duplicates(),
        paired(keys.push(key), values.push(value)) == paired(keys, values).insert(key, value),
{
    let more = keys.push(key);
    assert forall|i: int, j: int| 0 <= i < more.len() && 0 <= j < more.len() && i != j implies more[i]
        != more[j] by {
        if i < keys.len() {
            assert(keys.contains(more[i]));
        }
        if j < keys.len() {
            assert(keys.contains(more[j]));
        }
    }
    let left = paired(more, values.push(value));
    let right = paired(keys, values).insert(key, value);
    assert forall|k: Seq<char>| left.contains_key(k) <==> right.contains_key(k) by {
        if left.contains_key(k) {
            let i = more.index_of(k);
            assert(0 <= i < more.len() && more[i] == k);
            if i < keys.len() {
                assert(keys[i] == k);
            }
        }
        if right.contains_key(k) {
            if k == key {
                assert(more[keys.len() as int] == k);
            } else {
                let i = keys.index_of(k);
                assert(0 <= i < keys.len() && keys[i] == k);
                assert(more[i] == k);
            }
        }
    }
    assert forall|k: Seq<char>| left.contains_key(k) implies left[k] == right[k] by {
        let i = more.index_of(k);
        assert(0 <= i < more.len() && more[i] == k);
        lemma_paired_at(more, values.push(value), i);
        if i < keys.len() {
            lemma_paired_at(keys, values, i);
        }
    }
    assert(left =~= right);
}

/// Taking out the key and the value at `at` removes that key.
pub proof fn lemma_paired_remove<T>(keys: Seq<Seq<char>>, values: Seq<T>, at: int)
    requires
        keys.no_duplicates(),
        keys.len() == values.len(),
        0 <= at < keys.len(),
    ensures
        keys.remove(at).no_duplicates(),
        keys.remove(at) == keys.remove_value(keys[at]),
        paired(keys.remove(at), values.remove(at)) == paired(keys, values).remove(keys[at]),
{
    let fewer = keys.remove(at);
    let rest = values.remove(at);
    keys.index_of_first_ensures(keys[at]);
    assert(keys.index_of_first(keys[at]) == Some(at));
    let left = paired(fewer, rest);
    let right = paired(keys, values).remove(keys[at]);
    assert forall|k: Seq<char>| left.contains_key(k) <==> right.contains_key(k) by {
        if left.contains_key(k) {
            let i = fewer.index_of(k);
            assert(0 <= i < fewer.len() && fewer[i] == k);
            let j = if i < at {
                i
            } else {
                i + 1
            };
            assert(keys[j] == k);
        }
        if right.contains_key(k) {
            let j = keys.index_of(k);
            assert(0 <= j < keys.len() && keys[j] == k);
            let i = if j < at {
                j
            } else {
                j - 1
            };
            assert(fewer[i] == k);
        }
    }
    assert forall|k: Seq<char>| left.contains_key(k) implies left[k] == right[k] by {
        let i = fewer.index_of(k);
        assert(0 <= i < fewer.len() && fewer[i] == k);
        lemma_paired_at(fewer, rest, i);
        let j = if i < at {
            i
        } else {
            i + 1
        };
        assert(keys[j] == k);
        lemma_paired_at(keys, values, j);
    }
    assert(left =~= right);
}

impl<V> StrMap<V> {
    #[verifier::type_invariant]
    spec fn well_formed(&self) -> bool {
        &&& self.keys@.len() == self.values@.len()
        &&& texts(self.keys@).no_duplicates()
    }
}

impl<V: View> View for StrMap<V> {
    type V = Map<Seq<char>, V::V>;

    closed spec fn view(&self) -> Map<Seq<char>, V::V> {
        paired(texts(self.keys@), views(self.values@))
    }
}

impl<V: View> StrMap<V> {
    /// The keys in the order of their first insertion.
    pub closed spec fn keys(&self) -> Seq<Seq<char>> {
        texts(self.keys@)
    }

    /// The views of the values, in the order of the keys.
    closed spec fn value_views(&self) -> Seq<V::V> {
        views(self.values@)
    }

    /// An empty map.
    pub fn new() -> (m: Self)
        ensures
            m@ == Map::<Seq<char>, V::V>::empty(),
            m.keys() == Seq::<Seq<char>>::empty(),
    {
        let m = StrMap { keys: Vec::new(), values: Vec::new() };
        assert(m@ =~= Map::<Seq<char>, V::V>::empty());
        assert(m.keys() =~= Seq::<Seq<char>>::empty());
        m
    }

    /// The number of entries.
    pub fn len(&self) -> (n: usize)
        ensures
            n == self.keys().len(),
    {
        self.keys.len()
    }

    /// Whether the map has no entry.
    pub fn is_empty(&self) -> (b: bool)
        ensures
            b == (self@ == Map::<Seq<char>, V::V>::empty()),
            b == (self.keys().len() == 0),
    {
        let b = self.keys.len() == 0;
        proof {
            use_type_invariant(self);
            if b {
                assert(self@ =~= Map::<Seq<char>, V::V>::empty());
            } else {
                lemma_paired_at(self.keys(), self.value_views(), 0);
            }
        }
        b
    }

    /// The index of the entry for `key`.
    fn find(&self, key: &str) -> (r: Option<usize>)
        ensures
            match r {
                Some(i) => i < self.keys().len() && self.keys()[i as int] == key@
                    && self@.contains_key(key@) && self@[key@] == self.values@[i as int]@,
                None => !self.keys().contains(key@) && !self@.contains_key(key@),
            },
    {
        proof {
            use_type_invariant(self);
        }
        let wanted: String = key.to_owned();
        let mut i: usize = 0;
        while i < self.keys.len()
            invariant
                i <= self.keys@.len(),
                wanted@ == key@,
                self.keys@.len() == self.values@.len(),
                texts(self.keys@).no_duplicates(),
                forall|j: int| 0 <= j < i ==> (#[trigger] self.keys@[j])@ != key@,
            decreases self.keys@.len() - i,
        {
            if self.keys[i] == wanted {
                proof {
                    lemma_paired_at(self.keys(), self.value_views(), i as int);
                }
                return Some(i);
            }
            i += 1;
        }
        proof {
            if self.keys().contains(key@) {
                let j = self.keys().index_of(key@);
                assert(0 <= j < self.keys().len() && self.keys()[j] == key@);
                assert(self.keys@[j]@ == key@);
            }
        }
        None
    }

    /// The key of the entry at position `i`.
    pub fn key_at(&self, i: usize) -> (r: &String)
        requires
            i < self.keys().len(),
        ensures
            r@ == self.keys()[i as int],
            self@.contains_key(r@),
    {
        proof {
            use_type_invariant(self);
            lemma_paired_at(self.keys(), self.value_views(), i as int);
        }
        &self.keys[i]
    }

    /// The value of the entry at position `i`.
    pub fn value_at(&self, i: usize) -> (r: &V)
        requires
            i < self.keys().len(),
        ensures
            self@.contains_key(self.keys()[i as int]),
            r@ == self@[self.keys()[i as int]],
    {
        proof {
            use_type_invariant(self);
            lemma_paired_at(self.keys(), self.value_views(), i as int);
        }
        &self.values[i]
    }

    /// The values, in the order of the keys.
    pub closed spec fn value_seq(&self) -> Seq<V> {
        self.values@
    }

    /// The values, in the order of the keys. Every key of the map occurs
    /// once among the keys, and the value at its position is its value.
    pub fn values(&self) -> (r: &[V])
        ensures
            r@ == self.value_seq(),
            r@.len() == self.keys().len(),
            self.keys().no_duplicates(),
            forall|k: Seq<char>| self@.contains_key(k) <==> self.keys().contains(k),
            forall|i: int|
                0 <= i < r@.len() ==> self@.contains_key(#[trigger] self.keys()[i]) && r@[i]@
                    == self@[self.keys()[i]],
    {
        proof {
            use_type_invariant(self);
            assert forall|i: int| 0 <= i < self.values@.len() implies self@.contains_key(
                #[trigger] self.keys()[i],
            ) && self.values@[i]@ == self@[self.keys()[i]] by {
                lemma_paired_at(self.keys(), self.value_views(), i);
            }
        }
        self.values.as_slice()
    }

    /// Whether `key` has an entry.
    pub fn contains_key(&self, key: &str) -> (b: bool)
        ensures
            b == self@.contains_key(key@),
    {
        self.find(key).is_some()
    }

    /// The value stored for `key`.
    pub fn get(&self, key: &str) -> (r: Option<&V>)
        ensures
            match r {
                Some(v) => self@.contains_key(key@) && v@ == self@[key@],
                None => !self@.contains_key(key@),
            },
    {
        proof {
            use_type_invariant(self);
        }
        match self.find(key) {
            Some(i) => Some(&self.values[i]),
            None => None,
        }
    }

    /// The value stored for `key`, for changing it in place.
    pub fn get_mut(&mut self, key: &str) -> (r: Option<&mut V>)
        ensures
            match r {
                Some(v) => old(self)@.contains_key(key@) && v@ == old(self)@[key@] && final(self)@
                    == old(self)@.insert(key@, final(v)@) && final(self).keys() == old(self).keys(),
                None => !old(self)@.contains_key(key@) && final(self)@ == old(self)@
                    && final(self).keys() == old(self).keys(),
            },
    {
        proof {
            use_type_invariant(&*self);
        }
        match self.find(key) {
            Some(i) => {
                proof {
                    let keys = self.keys();
                    let values = self.values@;
                    assert forall|v: V| paired(keys, views(#[trigger] values.update(i as int, v)))
                        == paired(keys, views(values)).insert(keys[i as int], v@) by {
                        lemma_paired_update(keys, views(values), i as int, v@);
                        assert(views(values.update(i as int, v)) =~= views(values).update(
                            i as int,
                            v@,
                        ));
                    }
                }
                Some(&mut self.values[i])
            },
            None => None,
        }
    }

    /// Stores `value` for `key`. A key that is already present keeps its place
    /// and gets the new value; a new key is added at the end.
    pub fn insert(&mut self, key: String, value: V)
        ensures
            final(self)@ == old(self)@.insert(key@, value@),
            final(self).keys() == if old(self)@.contains_key(key@) {
                old(self).keys()
            } else {
                old(self).keys().push(key@)
            },
    {
        proof {
            use_type_invariant(&*self);
        }
        let found = self.find(key.as_str());
        let mut taken: StrMap<V> = StrMap { keys: Vec::new(), values: Vec::new() };
        std::mem::swap(self, &mut taken);
        let StrMap { mut keys, mut values } = taken;
        match found {
            Some(i) => {
                values[i] = value;
                proof {
                    lemma_paired_update(
                        old(self).keys(),
                        old(self).value_views(),
                        i as int,
                        value@,
                    );
                    assert(views(values@) =~= old(self).value_views().update(i as int, value@));
                }
            },
            None => {
                proof {
                    lemma_paired_push(old(self).keys(), old(self).value_views(), key@, value@);
                    assert(texts(keys@.push(key)) =~= old(self).keys().push(key@));
                    assert(views(values@.push(value)) =~= old(self).value_views().push(value@));
                }
                keys.push(key);
                values.push(value);
            },
        }
        *self = StrMap { keys, values };
    }

    /// Takes the entry for `key` out of the map and returns its value. The
    /// other keys keep their order.
    pub fn remove(&mut self, key: &str) -> (r: Option<V>)
        ensures
            final(self)@ == old(self)@.remove(key@),
            match r {
                Some(v) => old(self)@.contains_key(key@) && v@ == old(self)@[key@],
                None => !old(self)@.contains_key(key@),
            },
            final(self).keys() == old(self).keys().remove_value(key@),
    {
        proof {
            use_type_invariant(&*self);
        }
        match self.find(key) {
            Some(i) => {
                let mut taken: StrMap<V> = StrMap { keys: Vec::new(), values: Vec::new() };
                std::mem::swap(self, &mut taken);
                let StrMap { mut keys, mut values } = taken;
                keys.remove(i);
                let value = values.remove(i);
                proof {
                    lemma_paired_remove(old(self).keys(), old(self).value_views(), i as int);
                    assert(texts(keys@) =~= old(self).keys().remove(i as int));
                    assert(views(values@) =~= old(self).value_views().remove(i as int));
                }
                *self = StrMap { keys, values };
                Some(value)
            },
            None => {
                proof {
                    assert(self@ =~= self@.remove(key@));
                    self.keys().index_of_first_ensures(key@);
                }
                None
            },
        }
    }
}

/// Whether two maps give the same value to every key that both hold.
pub open spec fn compatible(a: Map<Seq<char>, Seq<char>>, b: Map<Seq<char>, Seq<char>>) -> bool {
    forall|k: Seq<char>| a.contains_key(k) && b.contains_key(k) ==> a[k] == b[k]
}

/// The keys of `first`, followed by those keys of `second` that `first` does
/// not hold, each in its order.
pub open spec fn merged_keys(first: Seq<Seq<char>>, second: Seq<Seq<char>>) -> Seq<Seq<char>>
    decreases second.len(),
{
    if second.len() == 0 {
        first
    } else if first.contains(second[0]) {
        merged_keys(first, second.skip(1))
    } else {
        merged_keys(first.push(second[0]), second.skip(1))
    }
}

/// One entry as it is written in a listing: the key and the value in double
/// quotes, with a colon and a space between them.
pub open spec fn entry_text(key: Seq<char>, value: Seq<char>) -> Seq<char> {
    seq!['"'] + key + seq!['"', ':', ' ', '"'] + value + seq!['"']
}

/// The entries at the first `n` positions as they are written in a listing,
/// with a comma and a space between two entries.
pub open spec fn entries_text(
    keys: Seq<Seq<char>>,
    map: Map<Seq<char>, Seq<char>>,
    n: nat,
) -> Seq<char>
    decreases n,
{
    if n == 0 {
        Seq::<char>::empty()
    } else if n == 1 {
        entry_text(keys[0], map[keys[0]])
    } else {
        entries_text(keys, map, (n - 1) as nat) + seq![',', ' '] + entry_text(
            keys[n - 1],
            map[keys[n - 1]],
        )
    }
}

/// A map as it is written in a listing: its entries between braces.
pub open spec fn listing_text(keys: Seq<Seq<char>>, map: Map<Seq<char>, Seq<char>>) -> Seq<char> {
    seq!['{'] + entries_text(keys, map, keys.len()) + seq!['}']
}

impl StrMap<String> {
    /// A copy of the value stored for `key`.
    pub fn lookup(&self, key: &str) -> (r: Option<String>)
        ensures
            match r {
                Some(v) => self@.contains_key(key@) && v@ == self@[key@],
                None => !self@.contains_key(key@),
            },
    {
        match self.get(key) {
            Some(v) => Some(v.clone()),
            None => None,
        }
    }

    /// Whether this map and `other` give the same value to every key that both
    /// hold.
    pub fn agrees_with(&self, other: &StrMap<String>) -> (b: bool)
        ensures
            b == compatible(self@, other@),
    {
        proof {
            use_type_invariant(self);
        }
        let mut i: usize = 0;
        while i < self.keys.len()
            invariant
                i <= self.keys@.len(),
                self.keys@.len() == self.values@.len(),
                texts(self.keys@).no_duplicates(),
                forall|j: int|
                    0 <= j < i && other@.contains_key(#[trigger] self.keys()[j]) ==> other@[self.keys()[j]]
                        == self@[self.keys()[j]],
            decreases self.keys@.len() - i,
        {
            proof {
                lemma_paired_at(self.keys(), self.value_views(), i as int);
            }
            match other.get(self.keys[i].as_str()) {
                Some(theirs) => {
                    if *theirs != self.values[i] {
                        return false;
                    }
                },
                None => {},
            }
            i += 1;
        }
        proof {
            assert forall|k: Seq<char>| self@.contains_key(k) && other@.contains_key(k) implies self@[k]
                == other@[k] by {
                let j = self.keys().index_of(k);
                assert(0 <= j < self.keys().len() && self.keys()[j] == k);
            }
        }
        true
    }

    /// Stores every entry of `other` in this map. Where both hold a key, the
    /// value of `other` replaces the value here.
    pub fn absorb(&mut self, other: &StrMap<String>)
        ensures
            final(self)@ == old(self)@.union_prefer_right(other@),
            final(self).keys() == merged_keys(old(self).keys(), other.keys()),
    {
        proof {
            use_type_invariant(other);
            assert(other.keys().skip(0) =~= other.keys());
        }
        let mut i: usize = 0;
        while i < other.keys.len()
            invariant
                i <= other.keys@.len(),
                other.keys@.len() == other.values@.len(),
                texts(other.keys@).no_duplicates(),
                merged_keys(old(self).keys(), other.keys()) == merged_keys(
                    self.keys(),
                    other.keys().skip(i as int),
                ),
                forall|k: Seq<char>| #[trigger]
                    self@.contains_key(k) <==> old(self)@.contains_key(k) || exists|j: int|
                        0 <= j < i && other.keys()[j] == k,
                forall|k: Seq<char>| #[trigger]
                    self@.contains_key(k) ==> self@[k] == if exists|j: int|
                        0 <= j < i && other.keys()[j] == k {
                        other@[k]
                    } else {
                        old(self)@[k]
                    },
                forall|k: Seq<char>| self.keys().contains(k) <==> #[trigger] self@.contains_key(k),
            decreases other.keys@.len() - i,
        {
            let key = other.keys[i].clone();
            let value = other.values[i].clone();
            let ghost before = *self;
            let ghost rest = other.keys().skip(i as int);
            proof {
                lemma_paired_at(other.keys(), other.value_views(), i as int);
                assert(rest[0] == key@);
                assert(rest.skip(1) =~= other.keys().skip(i + 1));
            }
            self.insert(key, value);
            proof {
                assert forall|k: Seq<char>| self.keys().contains(k) <==> #[trigger] self@.contains_key(
                    k,
                ) by {
                    if before@.contains_key(key@) {
                    } else {
                        if self.keys().contains(k) {
                            let j = self.keys().index_of(k);
                            assert(0 <= j < self.keys().len() && self.keys()[j] == k);
                            if j < before.keys().len() {
                                assert(before.keys()[j] == k);
                                assert(before.keys().contains(k));
                            }
                        }
                        if self@.contains_key(k) {
                            if k == key@ {
                                assert(self.keys()[before.keys().len() as int] == k);
                            } else {
                                let j = before.keys().index_of(k);
                                assert(0 <= j < before.keys().len() && before.keys()[j] == k);
                                assert(self.keys()[j] == k);
                            }
                        }
                    }
                }
                assert forall|k: Seq<char>| #[trigger]
                    self@.contains_key(k) <==> old(self)@.contains_key(k) || exists|j: int|
                        0 <= j < i + 1 && other.keys()[j] == k by {
                    if k == key@ {
                        assert(other.keys()[i as int] == k);
                    }
                }
                assert forall|k: Seq<char>| #[trigger] self@.contains_key(k) implies self@[k]
                    == if exists|j: int| 0 <= j < i + 1 && other.keys()[j] == k {
                    other@[k]
                } else {
                    old(self)@[k]
                } by {
                    if k == key@ {
                        assert(other.keys()[i as int] == k);
                    } else {
                        if exists|j: int| 0 <= j < i + 1 && other.keys()[j] == k {
                            let j = choose|j: int| 0 <= j < i + 1 && other.keys()[j] == k;
                            assert(j < i);
                        }
                    }
                }
            }
            i += 1;
        }
        proof {
            assert(other.keys().skip(i as int).len() == 0);
            let left = self@;
            let right = old(self)@.union_prefer_right(other@);
            assert forall|k: Seq<char>| left.contains_key(k) <==> right.contains_key(k) by {
                if other@.contains_key(k) {
                    let j = other.keys().index_of(k);
                    assert(0 <= j < other.keys().len() && other.keys()[j] == k);
                }
                if exists|j: int| 0 <= j < i && other.keys()[j] == k {
                    let j = choose|j: int| 0 <= j < i && other.keys()[j] == k;
                    lemma_paired_at(other.keys(), other.value_views(), j);
                }
            }
            assert forall|k: Seq<char>| left.contains_key(k) implies left[k] == right[k] by {
                if other@.contains_key(k) {
                    let j = other.keys().index_of(k);
                    assert(0 <= j < other.keys().len() && other.keys()[j] == k);
                } else {
                    if exists|j: int| 0 <= j < i && other.keys()[j] == k {
                        let j = choose|j: int| 0 <= j < i && other.keys()[j] == k;
                        lemma_paired_at(other.keys(), other.value_views(), j);
                    }
                }
            }
            assert(left =~= right);
        }
    }

    /// The map as text: `{"key": "value", ...}`, the entries in the order of
    /// the keys.
    pub fn describe(&self) -> (s: String)
        ensures
            s@ == listing_text(self.keys(), self@),
    {
        proof {
            use_type_invariant(self);
        }
        let mut s = String::new();
        s.append("{");
        proof {
            reveal_strlit("{");
            assert(s@ =~= seq!['{']);
        }
        let mut i: usize = 0;
        while i < self.keys.len()
            invariant
                i <= self.keys@.len(),
                self.keys@.len() == self.values@.len(),
                texts(self.keys@).no_duplicates(),
                s@ == seq!['{'] + entries_text(self.keys(), self@, i as nat),
            decreases self.keys@.len() - i,
        {
            let ghost before = s@;
            if i > 0 {
                s.append(", ");
            }
            s.append("\"");
            s.append(self.keys[i].as_str());
            s.append("\": \"");
            s.append(self.values[i].as_str());
            s.append("\"");
            proof {
                reveal_strlit(", ");
                reveal_strlit("\"");
                reveal_strlit("\": \"");
                lemma_paired_at(self.keys(), self.value_views(), i as int);
                let key = self.keys()[i as int];
                let value = self@[key];
                assert("\""@ =~= seq!['"']);
                assert(", "@ =~= seq![',', ' ']);
                assert("\": \""@ =~= seq!['"', ':', ' ', '"']);
                if i > 0 {
                    assert(s@ =~= before + seq![',', ' '] + entry_text(key, value));
                    assert(s@ =~= seq!['{'] + (entries_text(self.keys(), self@, i as nat) + seq![
                        ',',
                        ' ',
                    ] + entry_text(key, value)));
                } else {
                    assert(s@ =~= before + entry_text(key, value));
                    assert(entries_text(self.keys(), self@, 0) =~= Seq::<char>::empty());
                    assert(s@ =~= seq!['{'] + entry_text(key, value));
                }
            }
            i += 1;
        }
        s.append("}");
        proof {
            reveal_strlit("}");
            assert("}"@ =~= seq!['}']);
        }
        s
    }
}

impl Clone for StrMap<String> {
    fn clone(&self) -> (r: Self)
        ensures
            r@ == self@,
            r.keys() == self.keys(),
    {
        proof {
            use_type_invariant(self);
        }
        let mut keys: Vec<String> = Vec::new();
        let mut values: Vec<String> = Vec::new();
        let mut i: usize = 0;
        while i < self.keys.len()
            invariant
                i <= self.keys@.len(),
                self.keys@.len() == self.values@.len(),
                keys@.len() == i,
                values@.len() == i,
                texts(keys@) == texts(self.keys@).take(i as int),
                views(values@) == views(self.values@).take(i as int),
            decreases self.keys@.len() - i,
        {
            keys.push(self.keys[i].clone());
            values.push(self.values[i].clone());
            proof {
                assert(texts(keys@) =~= texts(self.keys@).take(i + 1));
                assert(views(values@) =~= views(self.values@).take(i + 1));
            }
            i += 1;
        }
        proof {
            assert(texts(self.keys@).take(i as int) =~= texts(self.keys@));
            assert(views(self.values@).take(i as int) =~= views(self.values@));
        }
        StrMap { keys, values }
    }
}

} // verus!
